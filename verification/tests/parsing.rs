//! Parsing real sources with the bundled grammars, file indexing, and
//! path handling.

use local_code_search::errors::IndexError;
use local_code_search::hashing::hash_file;
use local_code_search::project_files::{path_extension, scan_supported, ProjectFile};

#[test]
fn rust_file_parses_and_chunks() {
    let path = b"lib.rs".to_vec();
    let text = b"fn add(a: i32, b: i32) -> i32 { a + b }".to_vec();
    let file = ProjectFile::new(path, text.clone()).unwrap();
    let chunks = file.chunks();
    assert!(!chunks.is_empty());
    let first = &chunks[0];
    let content = file.chunk_text(first);
    let s = String::from_utf8(content).unwrap();
    assert!(s.contains("fn add"));
}

#[test]
fn unsupported_extension_is_rejected() {
    let path = b"README.md".to_vec();
    let text = b"# title\n".to_vec();
    match ProjectFile::new(path, text) {
        Err(IndexError::UnsupportedLanguage) => {},
        other => panic!("unexpected result: {:?}", other.is_ok()),
    }
}

#[test]
fn update_replaces_text_and_chunks() {
    let path = b"lib.rs".to_vec();
    let text = b"fn add(a: i32, b: i32) -> i32 { a + b }".to_vec();
    let mut file = ProjectFile::new(path, text).unwrap();
    let new_text = b"fn sub(a: i32, b: i32) -> i32 { a - b }".to_vec();
    file.update(new_text).unwrap();
    let chunks = file.chunks();
    assert!(!chunks.is_empty());
    let s = String::from_utf8(file.chunk_text(&chunks[0])).unwrap();
    assert!(s.contains("fn sub"));
    assert!(!s.contains("fn add"));
}

#[test]
fn several_grammars_parse() {
    let cases: Vec<(&[u8], &[u8])> = vec![
        (b"a.py", b"def f(x):\n    return x\n"),
        (b"a.json", b"{\"k\": 1}"),
        (b"a.ts", b"function f(x: number) { return x; }"),
        (b"a.java", b"class A { int f() { return 1; } }"),
        (b"a.go", b"package main\nfunc f() int { return 1 }\n"),
        (b"a.c", b"int f(void) { return 1; }"),
        (b"a.yaml", b"k: v\n"),
    ];
    for (p, t) in cases {
        let file = ProjectFile::new(p.to_vec(), t.to_vec());
        assert!(file.is_ok(), "failed for {:?}", String::from_utf8_lossy(p));
    }
}

#[test]
fn path_extension_cases() {
    assert_eq!(path_extension(&b"src/lib.rs".to_vec()), b"rs".to_vec());
    assert_eq!(path_extension(&b"a.tar.gz".to_vec()), b"gz".to_vec());
    assert_eq!(path_extension(&b"Makefile".to_vec()), Vec::<u8>::new());
    assert_eq!(path_extension(&b"dir.d/file".to_vec()), Vec::<u8>::new());
    assert_eq!(path_extension(&b".gitignore".to_vec()), Vec::<u8>::new());
    assert_eq!(path_extension(&b"a/.hidden".to_vec()), Vec::<u8>::new());
}

#[test]
fn scan_extension_set() {
    for p in [
        "a.rs", "a.ts", "a.tsx", "a.py", "a.java", "a.kt", "a.json", "a.yaml", "a.yml",
    ] {
        assert!(scan_supported(&p.as_bytes().to_vec()), "{}", p);
    }
    for p in ["a.md", "a.c", "a.go", "a.scala", "a.cpp", "a", "a.txt"] {
        assert!(!scan_supported(&p.as_bytes().to_vec()), "{}", p);
    }
}

#[test]
fn hash_is_deterministic_64_bytes() {
    let a = hash_file(&b"hello".to_vec());
    let b = hash_file(&b"hello".to_vec());
    let c = hash_file(&b"hellp".to_vec());
    assert_eq!(a.len(), 64);
    assert_eq!(a, b);
    assert_ne!(a, c);
}
