//! Embeddings, distances, and the vector store.

use local_code_search::code_splitter::{Chunk, TextPosition};
use local_code_search::embedding::Embedding;
use local_code_search::project_repository::ProjectRepository;

fn emb(v: &[i64]) -> Embedding {
    Embedding::new(v.to_vec()).unwrap()
}

fn chunk(start_byte: usize, end_byte: usize) -> Chunk {
    Chunk {
        start_byte,
        end_byte,
        start: TextPosition { row: 0, column: start_byte },
        end: TextPosition { row: 0, column: end_byte },
    }
}

#[test]
fn embedding_bounds_are_enforced() {
    assert!(Embedding::new(vec![0, 1, -1, 1048576, -1048576]).is_some());
    assert!(Embedding::new(vec![1048577]).is_none());
    assert!(Embedding::new(vec![-1048577]).is_none());
    assert_eq!(emb(&[1, 2, 3]).dim(), 3);
}

#[test]
fn distance_is_squared_euclidean() {
    assert_eq!(emb(&[1, 2]).distance(&emb(&[1, 2])), 0);
    assert_eq!(emb(&[0, 3]).distance(&emb(&[4, 0])), 25);
    // the shorter vector is read as zero-padded
    assert_eq!(emb(&[1]).distance(&emb(&[])), 1);
    assert_eq!(emb(&[3, 4]).distance(&emb(&[3])), 16);
}

#[test]
fn search_orders_by_distance() {
    let mut store = ProjectRepository::new();
    store
        .insert_file(
            b"far.rs".to_vec(),
            &vec![chunk(0, 5)],
            vec![emb(&[100, 0])],
        )
        .unwrap();
    store
        .insert_file(
            b"near.rs".to_vec(),
            &vec![chunk(0, 7)],
            vec![emb(&[11, 0])],
        )
        .unwrap();
    let results = store.search(&emb(&[10, 0]));
    assert_eq!(results.len(), 2);
    assert_eq!(results[0].path, b"near.rs".to_vec());
    assert_eq!(results[1].path, b"far.rs".to_vec());
    assert_eq!((results[0].byte.start, results[0].byte.end), (0, 7));
}

#[test]
fn search_returns_at_most_five() {
    let mut store = ProjectRepository::new();
    let chunks: Vec<Chunk> = (0..7).map(|i| chunk(i * 10, i * 10 + 5)).collect();
    let embeddings: Vec<Embedding> = (0..7).map(|i| emb(&[i as i64, 1])).collect();
    store.insert_file(b"a.rs".to_vec(), &chunks, embeddings).unwrap();
    let results = store.search(&emb(&[0, 1]));
    assert_eq!(results.len(), 5);
    // nearest first: the row embedded at [0, 1] itself
    assert_eq!((results[0].byte.start, results[0].byte.end), (0, 5));
}

#[test]
fn upsert_replaces_all_prior_rows() {
    let mut store = ProjectRepository::new();
    let id1 = store
        .insert_file(
            b"a.rs".to_vec(),
            &vec![chunk(0, 5), chunk(5, 10)],
            vec![emb(&[1, 0]), emb(&[2, 0])],
        )
        .unwrap();
    let id2 = store
        .insert_file(b"a.rs".to_vec(), &vec![chunk(20, 30)], vec![emb(&[9, 9])])
        .unwrap();
    // same file keeps its identity
    assert_eq!(id1, id2);
    let results = store.search(&emb(&[1, 0]));
    // only the latest version's single row remains
    assert_eq!(results.len(), 1);
    assert_eq!((results[0].byte.start, results[0].byte.end), (20, 30));
}

#[test]
fn upsert_leaves_other_files_alone() {
    let mut store = ProjectRepository::new();
    store
        .insert_file(b"a.rs".to_vec(), &vec![chunk(0, 5)], vec![emb(&[1, 0])])
        .unwrap();
    store
        .insert_file(b"b.rs".to_vec(), &vec![chunk(0, 6)], vec![emb(&[100, 0])])
        .unwrap();
    store
        .insert_file(b"a.rs".to_vec(), &vec![chunk(50, 60)], vec![emb(&[1, 0])])
        .unwrap();
    let results = store.search(&emb(&[100, 0]));
    assert_eq!(results[0].path, b"b.rs".to_vec());
    assert_eq!((results[0].byte.start, results[0].byte.end), (0, 6));
}

#[test]
fn repeated_identical_upsert_is_idempotent() {
    let mut s1 = ProjectRepository::new();
    let chunks = vec![chunk(0, 5), chunk(5, 12)];
    let embeddings = || vec![emb(&[1, 2]), emb(&[3, 4])];
    s1.insert_file(b"a.rs".to_vec(), &chunks, embeddings()).unwrap();
    let first: Vec<_> = s1
        .search(&emb(&[1, 2]))
        .into_iter()
        .map(|o| (o.path, (o.byte.start, o.byte.end), (o.row.start, o.row.end)))
        .collect();
    s1.insert_file(b"a.rs".to_vec(), &chunks, embeddings()).unwrap();
    let second: Vec<_> = s1
        .search(&emb(&[1, 2]))
        .into_iter()
        .map(|o| (o.path, (o.byte.start, o.byte.end), (o.row.start, o.row.end)))
        .collect();
    assert_eq!(first, second);
}

#[test]
fn empty_store_returns_nothing() {
    let store = ProjectRepository::new();
    let results = store.search(&emb(&[1, 2, 3]));
    assert_eq!(results.len(), 0);
}

#[test]
fn mismatched_dimension_is_refused() {
    let mut store = ProjectRepository::new();
    store
        .insert_file(b"a.rs".to_vec(), &vec![chunk(0, 5)], vec![emb(&[1, 0])])
        .unwrap();
    // a second file with a different embedding width is refused whole
    let r = store.insert_file(b"b.rs".to_vec(), &vec![chunk(0, 5)], vec![emb(&[1, 0, 0])]);
    assert!(r.is_err());
    // and within one call all embeddings must share a width
    let r2 = store.insert_file(
        b"c.rs".to_vec(),
        &vec![chunk(0, 5), chunk(5, 9)],
        vec![emb(&[1, 0]), emb(&[1, 0, 0])],
    );
    assert!(r2.is_err());
    // the refused files left nothing behind
    let results = store.search(&emb(&[1, 0]));
    assert_eq!(results.len(), 1);
    assert_eq!(results[0].path, b"a.rs".to_vec());
}
