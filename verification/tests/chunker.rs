//! Chunker behaviour on hand-built parse trees.

use local_code_search::code_splitter::{Chunk, CodeSplitter, SynNode, TextPosition};
use local_code_search::text::{byte_slice, bytes_eq, count_chars};

fn pos(row: usize, column: usize) -> TextPosition {
    TextPosition { row, column }
}

fn leaf(start_byte: usize, end_byte: usize, row: usize) -> SynNode {
    SynNode {
        start_byte,
        end_byte,
        start: pos(row, 0),
        end: pos(row, end_byte - start_byte),
        children: Vec::new(),
    }
}

fn node(start_byte: usize, end_byte: usize, children: Vec<SynNode>) -> SynNode {
    SynNode {
        start_byte,
        end_byte,
        start: pos(0, 0),
        end: pos(0, end_byte),
        children,
    }
}

#[test]
fn empty_tree_gives_no_chunks() {
    let source: Vec<u8> = Vec::new();
    let tree = leaf(0, 0, 0);
    let splitter = CodeSplitter::new(10);
    let chunks = splitter.chunks(&tree, &source);
    assert_eq!(chunks.len(), 0);
}

#[test]
fn small_siblings_merge_into_one_chunk() {
    // twenty bytes, four children of five bytes each, limit holds them all
    let source: Vec<u8> = b"aaaaabbbbbcccccddddd".to_vec();
    let tree = node(
        0,
        20,
        vec![leaf(0, 5, 0), leaf(5, 10, 0), leaf(10, 15, 0), leaf(15, 20, 0)],
    );
    let splitter = CodeSplitter::new(25);
    let chunks = splitter.chunks(&tree, &source);
    assert_eq!(chunks.len(), 1);
    assert_eq!(chunks[0].start_byte, 0);
    assert_eq!(chunks[0].end_byte, 20);
}

#[test]
fn limit_splits_between_siblings() {
    let source: Vec<u8> = b"aaaaabbbbbcccccddddd".to_vec();
    let tree = node(
        0,
        20,
        vec![leaf(0, 5, 0), leaf(5, 10, 0), leaf(10, 15, 0), leaf(15, 20, 0)],
    );
    let splitter = CodeSplitter::new(10);
    let chunks = splitter.chunks(&tree, &source);
    assert_eq!(chunks.len(), 2);
    assert_eq!((chunks[0].start_byte, chunks[0].end_byte), (0, 10));
    assert_eq!((chunks[1].start_byte, chunks[1].end_byte), (10, 20));
    // on a gap-free tree the chunks tile the whole span: nothing dropped
    assert_eq!(chunks.first().unwrap().start_byte, 0);
    assert_eq!(chunks.last().unwrap().end_byte, source.len());
}

#[test]
fn oversize_child_is_descended_into() {
    // the middle child is over the limit and splits at its own children
    let source: Vec<u8> = b"aaaabbbbbbbbbbbbcccc".to_vec();
    let big = node(4, 16, vec![leaf(4, 10, 0), leaf(10, 16, 0)]);
    let tree = node(0, 20, vec![leaf(0, 4, 0), big, leaf(16, 20, 0)]);
    let splitter = CodeSplitter::new(8);
    let chunks = splitter.chunks(&tree, &source);
    assert!(chunks.len() >= 2);
    // ordered, non-empty, non-overlapping
    for c in &chunks {
        assert!(c.start_byte < c.end_byte);
    }
    for w in chunks.windows(2) {
        assert!(w[0].end_byte <= w[1].start_byte);
    }
}

#[test]
fn oversize_leaf_is_emitted_whole() {
    // a childless span over the limit comes out as one oversize chunk
    let source: Vec<u8> = b"0123456789abcdef".to_vec();
    let tree = node(0, 16, vec![leaf(0, 16, 0)]);
    let splitter = CodeSplitter::new(4);
    let chunks = splitter.chunks(&tree, &source);
    assert_eq!(chunks.len(), 1);
    assert_eq!((chunks[0].start_byte, chunks[0].end_byte), (0, 16));
}

#[test]
fn oversize_function_interior_is_covered() {
    // one "function" whose body exceeds the limit: output chunks are all
    // non-empty, strictly ordered, and collectively cover its interior
    let source: Vec<u8> = b"fn f(){aaaa;bbbb;cccc;dddd;}".to_vec();
    let body = node(
        7,
        27,
        vec![leaf(7, 12, 0), leaf(12, 17, 0), leaf(17, 22, 0), leaf(22, 27, 0)],
    );
    let func = node(0, 28, vec![leaf(0, 7, 0), body, leaf(27, 28, 0)]);
    let tree = node(0, 28, vec![func]);
    let splitter = CodeSplitter::new(10);
    let chunks = splitter.chunks(&tree, &source);
    assert!(!chunks.is_empty());
    let mut covered_to = None;
    for c in &chunks {
        assert!(c.start_byte < c.end_byte);
        if let Some(prev_end) = covered_to {
            assert!(c.start_byte >= prev_end);
        }
        covered_to = Some(c.end_byte);
    }
    // the body's interior appears in the union of the chunks
    assert!(chunks.first().unwrap().start_byte <= 7);
    assert!(chunks.last().unwrap().end_byte >= 27);
}

#[test]
fn merge_spans_and_positions() {
    let a = Chunk {
        start_byte: 2,
        end_byte: 6,
        start: pos(0, 2),
        end: pos(0, 6),
    };
    let b = Chunk {
        start_byte: 8,
        end_byte: 12,
        start: pos(1, 0),
        end: pos(1, 4),
    };
    let m = a.merge(b);
    assert_eq!((m.start_byte, m.end_byte), (2, 12));
    assert_eq!(m.start, pos(0, 2));
    assert_eq!(m.end, pos(1, 4));
    // start <= end holds in bytes and in row/column order
    assert!(m.start_byte <= m.end_byte);
    assert!(m.start.row < m.end.row || (m.start.row == m.end.row && m.start.column <= m.end.column));
}

#[test]
fn merge_end_anchors_to_previous_end() {
    let a = Chunk {
        start_byte: 2,
        end_byte: 6,
        start: pos(0, 2),
        end: pos(0, 6),
    };
    let b = Chunk {
        start_byte: 8,
        end_byte: 12,
        start: pos(1, 0),
        end: pos(1, 4),
    };
    let m = a.merge_end(b);
    assert_eq!((m.start_byte, m.end_byte), (6, 12));
    // the positions delimit the emitted span: it begins where `a` ends
    assert_eq!(m.start, pos(0, 6));
    assert_eq!(m.end, pos(1, 4));
    assert!(m.start_byte <= m.end_byte);
    assert!(m.start.row < m.end.row || (m.start.row == m.end.row && m.start.column <= m.end.column));
}

#[test]
fn position_min_max_is_lexicographic() {
    let a = pos(1, 9);
    let b = pos(2, 0);
    assert_eq!(a.min(b), a);
    assert_eq!(a.max(b), b);
    let c = pos(1, 3);
    assert_eq!(a.min(c), c);
    assert_eq!(a.max(c), a);
}

#[test]
fn char_count_is_multibyte_aware() {
    // "héllo" is six bytes but five characters
    let s: Vec<u8> = "h\u{e9}llo".as_bytes().to_vec();
    assert_eq!(s.len(), 6);
    assert_eq!(count_chars(&s, 0, 6), 5);
    assert_eq!(count_chars(&s, 0, 1), 1);
}

#[test]
fn byte_slice_and_eq() {
    let s: Vec<u8> = b"hello world".to_vec();
    let w = byte_slice(&s, 6, 11);
    assert!(bytes_eq(&w, &b"world".to_vec()));
    assert!(!bytes_eq(&w, &b"worle".to_vec()));
}
