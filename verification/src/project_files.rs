//! The per-project file set: one indexed file per known path, with the
//! parser, source text, content hash and parse tree each file owns, and
//! the hydration of search results back into source text.

use vstd::prelude::*;
use crate::code_splitter::{
    Chunk, CodeSplitter, SynNode, chunk_sized_ok, chunk_span_wf, chunks_emitted_ok, chunks_tile,
    node_tiled, node_wf, oversize_leaves_emitted,
};
use crate::errors::IndexError;
use crate::hashing::{blake2b512_of, hash_file};
use crate::parse::{lang_of_ext, parse_source, parser_for_extension, ext_is2, ext_is3, ext_is4};
use crate::project_repository::{IndexRange, OutputChunk};
use crate::text::{byte_slice, bytes_eq};

verus! {

/// The byte value of an ASCII slash.
pub const SLASH: u8 = 47;

/// The byte value of an ASCII dot.
pub const DOT: u8 = 46;

/// Where the extension of a path begins: the position just after the last
/// dot of the final component, provided that dot is neither the component's
/// first character nor preceded by a slash; -1 when there is no extension.
pub open spec fn ext_start(s: Seq<u8>) -> int
    decreases s.len(),
{
    if s.len() == 0 {
        -1
    } else if s.last() == SLASH {
        -1
    } else if s.last() == DOT {
        if s.len() >= 2 && s[s.len() - 2] != SLASH {
            s.len() as int
        } else {
            -1
        }
    } else {
        ext_start(s.drop_last())
    }
}

/// The extension of a path, or the empty sequence when it has none.
pub open spec fn path_ext_spec(s: Seq<u8>) -> Seq<u8> {
    let d = ext_start(s);
    if d < 0 {
        Seq::empty()
    } else {
        s.subrange(d, s.len() as int)
    }
}

/// The extensions admitted when a project is scanned.
pub open spec fn scan_ext_ok(s: Seq<u8>) -> bool {
    ||| ext_is2(s, 114, 115)  // rs
    ||| ext_is2(s, 116, 115)  // ts
    ||| ext_is3(s, 116, 115, 120)  // tsx
    ||| ext_is2(s, 112, 121)  // py
    ||| ext_is4(s, 106, 97, 118, 97)  // java
    ||| ext_is2(s, 107, 116)  // kt
    ||| ext_is4(s, 106, 115, 111, 110)  // json
    ||| ext_is4(s, 121, 97, 109, 108)  // yaml
    ||| ext_is3(s, 121, 109, 108)  // yml
}

/// The extension of `path`, or an empty buffer when it has none.
pub fn path_extension(path: &Vec<u8>) -> (r: Vec<u8>)
    ensures
        r@ == path_ext_spec(path@),
{
    let mut i: usize = path.len();
    proof {
        assert(path@.subrange(0, path@.len() as int) =~= path@);
    }
    while i > 0
        invariant
            i <= path.len(),
            ext_start(path@) == ext_start(path@.subrange(0, i as int)),
        decreases i,
    {
        let b = path[i - 1];
        proof {
            assert(path@.subrange(0, i as int).drop_last() =~= path@.subrange(0, i - 1));
            assert(path@.subrange(0, i as int).last() == b);
            if i >= 2 {
                assert(path@.subrange(0, i as int)[i - 2] == path@[i - 2]);
            }
        }
        if b == SLASH {
            return Vec::new();
        }
        if b == DOT {
            if i >= 2 && path[i - 2] != SLASH {
                let r = byte_slice(path, i, path.len());
                return r;
            } else {
                return Vec::new();
            }
        }
        i = i - 1;
    }
    proof {
        assert(path@.subrange(0, 0) =~= Seq::<u8>::empty());
    }
    Vec::new()
}

/// True of a path the project scan admits.
pub fn scan_supported(path: &Vec<u8>) -> (r: bool)
    ensures
        r == scan_ext_ok(path_ext_spec(path@)),
{
    let ext = path_extension(path);
    if ext.len() == 2 {
        let a = ext[0];
        let b = ext[1];
        (a == 114 && b == 115) || (a == 116 && b == 115) || (a == 112 && b == 121) || (a == 107
            && b == 116)
    } else if ext.len() == 3 {
        let a = ext[0];
        let b = ext[1];
        let c = ext[2];
        (a == 116 && b == 115 && c == 120) || (a == 121 && b == 109 && c == 108)
    } else if ext.len() == 4 {
        let a = ext[0];
        let b = ext[1];
        let c = ext[2];
        let d = ext[3];
        (a == 106 && b == 97 && c == 118 && d == 97) || (a == 106 && b == 115 && c == 111 && d
            == 110) || (a == 121 && b == 97 && c == 109 && d == 108)
    } else {
        false
    }
}

/// The character limit of one chunk when a file is split for indexing.
pub const MAX_CHUNK_SIZE: usize = 1000;

/// A file whose modelled tree is gap-free from byte 0 and has children:
/// on such a file the splitter's output is pinned completely.
pub open spec fn file_tree_tiled(f: ProjectFile) -> bool {
    &&& node_tiled(f.tree_spec())
    &&& f.tree_spec().start_byte == 0
    &&& f.tree_spec().children@.len() > 0
}

/// What splitting one file yields: a well-formed emission over the file's
/// text and, where the file's tree is gap-free, the splitter's full
/// guarantee at the indexing limit - the chunks tile the tree's span, obey
/// the size bound except on indivisible leaves, and every oversize leaf
/// appears whole.
pub open spec fn file_chunks_post(f: ProjectFile, cs: Seq<Chunk>) -> bool {
    &&& chunks_emitted_ok(cs, 0, 0, f.text_spec().len() as int)
    &&& (node_tiled(f.tree_spec()) && f.tree_spec().start_byte == 0) ==> forall|j: int|
        0 <= j < cs.len() ==> chunk_sized_ok(
            f.text_spec(),
            f.tree_spec(),
            #[trigger] cs[j],
            MAX_CHUNK_SIZE as int,
        )
    &&& file_tree_tiled(f) ==> chunks_tile(cs, 0, 0, f.tree_spec().end_byte as int)
    &&& file_tree_tiled(f) ==> oversize_leaves_emitted(
        f.text_spec(),
        f.tree_spec(),
        cs,
        0,
        MAX_CHUNK_SIZE as int,
    )
}

/// One file handed to the indexer: its path and its content.
pub struct FileSource {
    pub path: Vec<u8>,
    pub text: Vec<u8>,
}

/// One indexed file: the parser bound to its language, the parser's last
/// tree (the reparse hint), and the path, text, content hash and modelled
/// tree the engine works with.
pub struct ProjectFile {
    parser: tree_sitter::Parser,
    ts_tree: tree_sitter::Tree,
    path: Vec<u8>,
    text: Vec<u8>,
    hash: Vec<u8>,
    tree: SynNode,
}

impl ProjectFile {
    /// The file's path.
    pub closed spec fn path_spec(self) -> Seq<u8> {
        self.path@
    }

    /// The file's current text.
    pub closed spec fn text_spec(self) -> Seq<u8> {
        self.text@
    }

    /// The file's content hash.
    pub closed spec fn hash_spec(self) -> Seq<u8> {
        self.hash@
    }

    /// The file's modelled parse tree.
    pub closed spec fn tree_spec(self) -> SynNode {
        self.tree
    }

    /// Well-formedness: the tree is a valid model lying inside the text,
    /// and the hash is the digest of the text.
    pub closed spec fn wf(self) -> bool {
        &&& node_wf(self.tree)
        &&& self.tree.end_byte <= self.text@.len()
        &&& self.hash@ == blake2b512_of(self.text@)
    }

    /// Indexes a new file from its path and content: binds a parser to the
    /// grammar of the path's extension, parses, and hashes. Rejects an
    /// unrecognized extension, and a text the parser produced no tree for.
    pub fn new(path: Vec<u8>, text: Vec<u8>) -> (r: Result<ProjectFile, IndexError>)
        ensures
            match r {
                Ok(f) => f.path_spec() == path@ && f.text_spec() == text@ && f.wf(),
                Err(e) => e == IndexError::UnsupportedLanguage || e == IndexError::ParseFailed,
            },
            lang_of_ext(path_ext_spec(path@)) is None ==> r == Err::<
                ProjectFile,
                IndexError,
            >(IndexError::UnsupportedLanguage),
            r matches Err(e) && e == IndexError::UnsupportedLanguage ==> lang_of_ext(
                path_ext_spec(path@),
            ) is None,
    {
        let ext = path_extension(&path);
        let parser_opt = parser_for_extension(&ext);
        match parser_opt {
            Some(mut parser) => {
                match parse_source(&mut parser, &text, None) {
                    Some((ts_tree, tree)) => {
                        let hash = hash_file(&text);
                        Ok(ProjectFile { parser, ts_tree, path, text, hash, tree })
                    },
                    None => Err(IndexError::ParseFailed),
                }
            },
            None => {
                if ext_to_language_is_none(&ext) {
                    Err(IndexError::UnsupportedLanguage)
                } else {
                    Err(IndexError::ParseFailed)
                }
            },
        }
    }

    /// Re-reads the file from the given content: re-parses with the
    /// previous tree as a hint and replaces text, hash and tree together.
    /// When the parser produces no tree, the previous text, hash and tree
    /// all stay as they were.
    pub fn update(&mut self, text: Vec<u8>) -> (r: Result<(), IndexError>)
        requires
            old(self).wf(),
        ensures
            final(self).wf(),
            final(self).path_spec() == old(self).path_spec(),
            match r {
                Ok(()) => final(self).text_spec() == text@,
                Err(e) => {
                    &&& e == IndexError::ParseFailed
                    &&& final(self).text_spec() == old(self).text_spec()
                    &&& final(self).hash_spec() == old(self).hash_spec()
                    &&& final(self).tree_spec() == old(self).tree_spec()
                },
            },
    {
        let parsed = parse_source(&mut self.parser, &text, Some(&self.ts_tree));
        match parsed {
            Some((ts_tree, tree)) => {
                let hash = hash_file(&text);
                self.ts_tree = ts_tree;
                self.text = text;
                self.hash = hash;
                self.tree = tree;
                Ok(())
            },
            None => Err(IndexError::ParseFailed),
        }
    }

    /// The file's chunks at the indexing limit: non-empty, strictly
    /// ordered, non-overlapping spans of the file's text; on a gap-free
    /// tree they tile the tree's span exactly, hold at most
    /// [`MAX_CHUNK_SIZE`] characters unless indivisible, and every
    /// oversize indivisible leaf appears whole.
    pub fn chunks(&self) -> (r: Vec<Chunk>)
        requires
            self.wf(),
        ensures
            file_chunks_post(*self, r@),
    {
        let splitter = CodeSplitter::new(MAX_CHUNK_SIZE);
        let r = splitter.chunks(&self.tree, &self.text);
        proof {
            assert forall|j: int| 0 <= j < r@.len() implies chunk_span_wf(
                #[trigger] r@[j],
                0,
                self.text_spec().len() as int,
            ) by {
                assert(chunk_span_wf(r@[j], 0, self.tree.end_byte as int));
            }
        }
        r
    }

    /// The text of one chunk: the bytes of its span.
    pub fn chunk_text(&self, chunk: &Chunk) -> (r: Vec<u8>)
        requires
            chunk.start_byte <= chunk.end_byte <= self.text_spec().len(),
        ensures
            r@ == self.text_spec().subrange(chunk.start_byte as int, chunk.end_byte as int),
    {
        byte_slice(&self.text, chunk.start_byte, chunk.end_byte)
    }
}

/// Whether the extension maps to no grammar; a separate test so that the
/// error kind can distinguish an unknown extension from a refused grammar.
fn ext_to_language_is_none(ext: &Vec<u8>) -> (r: bool)
    ensures
        r == (lang_of_ext(ext@) is None),
{
    match crate::parse::ext_lang_kind(ext) {
        Some(_) => false,
        None => true,
    }
}

/// A hydrated search result: the chunk's spans and its source text, read
/// from the in-memory file set rather than the filesystem, so that the
/// content always matches what was embedded.
#[derive(Debug)]
pub struct ResponseChunk {
    pub path: Vec<u8>,
    pub row: IndexRange,
    pub column: IndexRange,
    pub content: Vec<u8>,
}

/// Some file in the set has this path.
pub open spec fn fs_has_path(fs: Seq<ProjectFile>, path: Seq<u8>) -> bool {
    exists|i: int| 0 <= i < fs.len() && (#[trigger] fs[i]).path_spec() == path
}

/// The index of the file with this path (meaningful when `fs_has_path`).
pub open spec fn fs_idx(fs: Seq<ProjectFile>, path: Seq<u8>) -> int {
    choose|i: int| 0 <= i < fs.len() && (#[trigger] fs[i]).path_spec() == path
}

/// The text stored for `path`, if the path is known.
pub open spec fn fs_text(fs: Seq<ProjectFile>, path: Seq<u8>) -> Option<Seq<u8>> {
    if fs_has_path(fs, path) {
        Some(fs[fs_idx(fs, path)].text_spec())
    } else {
        None
    }
}

/// No two files in the set share a path.
pub open spec fn fs_paths_unique(fs: Seq<ProjectFile>) -> bool {
    forall|i: int, j: int|
        0 <= i < j < fs.len() ==> (#[trigger] fs[i]).path_spec() != (#[trigger] fs[j]).path_spec()
}

/// Whether a search result survives hydration: its path is known to the
/// file set and its byte span lies inside that file's current text.
pub open spec fn keeps(fs: Seq<ProjectFile>, o: OutputChunk) -> bool {
    &&& fs_has_path(fs, o.path@)
    &&& o.byte.start <= o.byte.end
    &&& o.byte.end <= fs[fs_idx(fs, o.path@)].text_spec().len()
}

/// A hydrated chunk carries its source's spans unchanged and exactly the
/// bytes of its span, read from the in-memory text of its file.
pub open spec fn hydrated_ok(fs: Seq<ProjectFile>, o: OutputChunk, c: ResponseChunk) -> bool {
    &&& c.path@ == o.path@
    &&& c.row == o.row
    &&& c.column == o.column
    &&& c.content@ == fs[fs_idx(fs, o.path@)].text_spec().subrange(
        o.byte.start as int,
        o.byte.end as int,
    )
}

/// What hydration returns: the kept inputs, in order, each hydrated; an
/// input is left out exactly when its path is unknown or its span escapes
/// its file.
pub open spec fn hydration_post(
    fs: Seq<ProjectFile>,
    os: Seq<OutputChunk>,
    rs: Seq<ResponseChunk>,
    keep: Seq<int>,
) -> bool {
    &&& keep.len() == rs.len()
    &&& forall|t: int| 0 <= t < keep.len() ==> 0 <= #[trigger] keep[t] < os.len()
    &&& forall|t: int| 0 <= t && t + 1 < keep.len() ==> #[trigger] keep[t] < keep[t + 1]
    &&& forall|t: int| 0 <= t < keep.len() ==> keeps(fs, os[#[trigger] keep[t]])
    &&& forall|t: int| 0 <= t < rs.len() ==> hydrated_ok(fs, os[keep[t]], #[trigger] rs[t])
    &&& forall|u: int| 0 <= u < os.len() && !keep.contains(u) ==> !keeps(fs, #[trigger] os[u])
}

/// Re-hydration round trip: every chunk hydration returns carries exactly
/// the current bytes of its file over the chunk's byte range.
pub proof fn lemma_rehydration_round_trip(
    fs: Seq<ProjectFile>,
    os: Seq<OutputChunk>,
    rs: Seq<ResponseChunk>,
    keep: Seq<int>,
    t: int,
)
    requires
        hydration_post(fs, os, rs, keep),
        0 <= t < rs.len(),
    ensures
        fs_text(fs, rs[t].path@) matches Some(text) && rs[t].content@ == text.subrange(
            os[keep[t]].byte.start as int,
            os[keep[t]].byte.end as int,
        ),
        rs[t].path@ == os[keep[t]].path@,
{
    assert(keeps(fs, os[keep[t]]));
    assert(hydrated_ok(fs, os[keep[t]], rs[t]));
}

/// What a list of chunk texts is: the texts, in order, of one well-formed
/// emission of chunks over the given file text.
pub open spec fn chunk_texts_post(text: Seq<u8>, cs: Seq<Chunk>, ts: Seq<Vec<u8>>) -> bool {
    &&& chunks_emitted_ok(cs, 0, 0, text.len() as int)
    &&& ts.len() == cs.len()
    &&& forall|k: int|
        0 <= k < cs.len() ==> #[trigger] ts[k]@ == text.subrange(
            cs[k].start_byte as int,
            cs[k].end_byte as int,
        )
}

/// The texts are the chunk texts of some well-formed emission over `text`.
pub open spec fn texts_ok(text: Seq<u8>, ts: Seq<Vec<u8>>) -> bool {
    exists|cs: Seq<Chunk>| chunk_texts_post(text, cs, ts)
}

/// The texts are, in order, the texts of one split of the file `f`: a
/// chunk list with the splitter's full guarantee on `f`, each text the
/// file's bytes over its chunk's span.
pub open spec fn file_chunk_texts_post(f: ProjectFile, cs: Seq<Chunk>, ts: Seq<Vec<u8>>) -> bool {
    &&& file_chunks_post(f, cs)
    &&& ts.len() == cs.len()
    &&& forall|k: int|
        0 <= k < cs.len() ==> #[trigger] ts[k]@ == f.text_spec().subrange(
            cs[k].start_byte as int,
            cs[k].end_byte as int,
        )
}

/// Some split of the file `f` has exactly these texts.
pub open spec fn texts_of_file_ok(f: ProjectFile, ts: Seq<Vec<u8>>) -> bool {
    exists|cs: Seq<Chunk>| file_chunk_texts_post(f, cs, ts)
}

/// The project's file set: one indexed file per known path.
pub struct ProjectFiles {
    files: Vec<ProjectFile>,
}

/// A file the scan admitted: it came from one of the sources, under an
/// extension the scan accepts.
pub open spec fn from_sources(srcs: Seq<FileSource>, f: ProjectFile) -> bool {
    &&& exists|i: int|
        0 <= i < srcs.len() && (#[trigger] srcs[i]).path@ == f.path_spec() && srcs[i].text@
            == f.text_spec()
    &&& scan_ext_ok(path_ext_spec(f.path_spec()))
}

impl ProjectFiles {
    /// The files, as the contracts speak of them.
    pub closed spec fn files_view(self) -> Seq<ProjectFile> {
        self.files@
    }

    /// Well-formedness: paths unique and every file well-formed.
    pub closed spec fn wf(self) -> bool {
        &&& fs_paths_unique(self.files@)
        &&& forall|i: int| 0 <= i < self.files@.len() ==> (#[trigger] self.files@[i]).wf()
    }

    /// Scans the given sources: admits each file whose extension the scan
    /// accepts and whose text parses, skipping the rest and any duplicate
    /// path, so that a single malformed file never aborts project bring-up.
    pub fn new(sources: Vec<FileSource>) -> (r: ProjectFiles)
        ensures
            r.wf(),
            forall|k: int|
                0 <= k < r.files_view().len() ==> from_sources(
                    sources@,
                    #[trigger] r.files_view()[k],
                ),
    {
        let ghost all = sources@;
        let mut sources = sources;
        let n0 = sources.len();
        let mut files: Vec<ProjectFile> = Vec::new();
        let mut i: usize = 0;
        while sources.len() > 0
            invariant
                sources@ =~= all.subrange(i as int, all.len() as int),
                all.len() == n0,
                i <= all.len(),
                fs_paths_unique(files@),
                forall|k: int| 0 <= k < files@.len() ==> (#[trigger] files@[k]).wf(),
                forall|k: int| 0 <= k < files@.len() ==> from_sources(all, #[trigger] files@[k]),
            decreases sources@.len(),
        {
            proof {
                assert(sources@.len() == all.len() - i);
                assert(sources@[0] == all[i as int]);
            }
            let source = sources.remove(0);
            if scan_supported(&source.path) && find_file(&files, &source.path).is_none() {
                let ghost spath = source.path@;
                let ghost stext = source.text@;
                match ProjectFile::new(source.path, source.text) {
                    Ok(f) => {
                        proof {
                            assert(f.path_spec() == spath && f.text_spec() == stext);
                            assert(all[i as int].path@ == spath);
                            assert(from_sources(all, f));
                            assert(!fs_has_path(files@, f.path_spec()));
                        }
                        files.push(f);
                        proof {
                            assert forall|a: int, b: int|
                                0 <= a < b < files@.len() implies (#[trigger] files@[a]).path_spec()
                                != (#[trigger] files@[b]).path_spec() by {
                                if b == files@.len() - 1 && files@[a].path_spec() == files@[
                                    b
                                ].path_spec() {
                                    assert(files@.drop_last()[a] == files@[a]);
                                    assert(fs_has_path(files@.drop_last(), files@[b].path_spec()));
                                }
                            }
                        }
                    },
                    Err(_) => {},
                }
            }
            i = i + 1;
        }
        ProjectFiles { files }
    }

    /// Updates the file at `path` from the given text, or indexes it fresh
    /// when the path is new. On failure the set is left as it was: an
    /// update that fails to parse keeps the file's previous text and tree.
    #[verifier::rlimit(80)]
    pub fn create_or_update(&mut self, path: &Vec<u8>, text: Vec<u8>) -> (r: Result<
        (),
        IndexError,
    >)
        requires
            old(self).wf(),
        ensures
            final(self).wf(),
            match r {
                Ok(()) => fs_text(final(self).files_view(), path@) == Some(text@) && forall|
                    q: Seq<u8>,
                |
                    q != path@ ==> fs_text(final(self).files_view(), q) == fs_text(
                        old(self).files_view(),
                        q,
                    ),
                Err(e) => {
                    &&& (e == IndexError::UnsupportedLanguage || e == IndexError::ParseFailed)
                    &&& forall|q: Seq<u8>|
                        fs_text(final(self).files_view(), q) == fs_text(old(self).files_view(), q)
                    &&& (fs_has_path(old(self).files_view(), path@) ==> e
                        == IndexError::ParseFailed)
                },
            },
    {
        let found = find_file(&self.files, path);
        match found {
            Some(k) => {
                let ghost pre = self.files@;
                let mut f = self.files.remove(k);
                let res = f.update(text);
                self.files.insert(k, f);
                proof {
                    let post = self.files@;
                    assert(post.len() == pre.len());
                    assert forall|j: int| 0 <= j < pre.len() && j != k implies post[j] == pre[j]
                        by {}
                    assert(post[k as int].path_spec() == pre[k as int].path_spec());
                    lemma_fs_replace(pre, post, k as int);
                }
                match res {
                    Ok(()) => {
                        proof {
                            lemma_fs_text_at(self.files@, k as int);
                        }
                        Ok(())
                    },
                    Err(e) => {
                        proof {
                            lemma_fs_text_at(self.files@, k as int);
                        }
                        Err(e)
                    },
                }
            },
            None => {
                let ghost spath = path@;
                let text_copy = text;
                match ProjectFile::new(byte_slice(path, 0, path.len()), text_copy) {
                    Ok(f) => {
                        let ghost pre = self.files@;
                        proof {
                            assert(path@.subrange(0, path@.len() as int) =~= path@);
                            assert(f.path_spec() == path@);
                        }
                        self.files.push(f);
                        proof {
                            let post = self.files@;
                            lemma_fs_push(pre, post, path@);
                            lemma_fs_text_at(post, post.len() - 1);
                        }
                        Ok(())
                    },
                    Err(e) => Err(e),
                }
            },
        }
    }

    /// The chunks of every known file, each with its path: one pair per
    /// file, each list the file's own split.
    pub fn all_chunks(&self) -> (r: Vec<(Vec<u8>, Vec<Chunk>)>)
        requires
            self.wf(),
        ensures
            r@.len() == self.files_view().len(),
            forall|k: int|
                0 <= k < r@.len() ==> (#[trigger] r@[k]).0@ == self.files_view()[k].path_spec()
                    && file_chunks_post(self.files_view()[k], r@[k].1@),
    {
        let mut r: Vec<(Vec<u8>, Vec<Chunk>)> = Vec::new();
        let mut k: usize = 0;
        while k < self.files.len()
            invariant
                self.wf(),
                k <= self.files@.len(),
                r@.len() == k,
                forall|j: int|
                    0 <= j < k ==> (#[trigger] r@[j]).0@ == self.files@[j].path_spec()
                        && file_chunks_post(self.files@[j], r@[j].1@),
            decreases self.files@.len() - k,
        {
            let f = &self.files[k];
            let path = byte_slice(&f.path, 0, f.path.len());
            proof {
                assert(path@ =~= f.path@);
            }
            let chunks = f.chunks();
            r.push((path, chunks));
            k = k + 1;
        }
        r
    }

    /// The chunks of the file at `path` - that file's own split - or none
    /// when the path is unknown.
    pub fn file_chunks(&self, path: &Vec<u8>) -> (r: Vec<Chunk>)
        requires
            self.wf(),
        ensures
            !fs_has_path(self.files_view(), path@) ==> r@.len() == 0,
            fs_has_path(self.files_view(), path@) ==> file_chunks_post(
                self.files_view()[fs_idx(self.files_view(), path@)],
                r@,
            ),
    {
        match find_file(&self.files, path) {
            Some(k) => {
                let r = self.files[k].chunks();
                proof {
                    lemma_fs_text_at(self.files@, k as int);
                }
                r
            },
            None => Vec::new(),
        }
    }

    /// Whether the set holds a file at `path`.
    pub fn has_path(&self, path: &Vec<u8>) -> (r: bool)
        ensures
            r == fs_has_path(self.files_view(), path@),
    {
        match find_file(&self.files, path) {
            Some(_) => true,
            None => false,
        }
    }

    /// The texts of the given chunks of the file at `path`, in order:
    /// each element is the file's bytes over one chunk's span.
    pub fn chunk_texts_for(&self, path: &Vec<u8>, chunks: &Vec<Chunk>) -> (r: Vec<Vec<u8>>)
        requires
            self.wf(),
            fs_has_path(self.files_view(), path@),
            chunks_emitted_ok(
                chunks@,
                0,
                0,
                fs_text(self.files_view(), path@)->0.len() as int,
            ),
        ensures
            r@.len() == chunks@.len(),
            forall|k: int|
                0 <= k < chunks@.len() ==> #[trigger] r@[k]@ == fs_text(
                    self.files_view(),
                    path@,
                )->0.subrange(chunks@[k].start_byte as int, chunks@[k].end_byte as int),
    {
        let found = find_file(&self.files, path);
        match found {
            Some(fi) => {
                proof {
                    lemma_fs_text_at(self.files@, fi as int);
                }
                let f = &self.files[fi];
                let mut r: Vec<Vec<u8>> = Vec::new();
                let mut k: usize = 0;
                while k < chunks.len()
                    invariant
                        self.wf(),
                        k <= chunks@.len(),
                        r@.len() == k,
                        0 <= fi < self.files@.len(),
                        f == self.files@[fi as int],
                        f.path_spec() == path@,
                        fs_text(self.files@, path@) == Some(f.text_spec()),
                        chunks_emitted_ok(chunks@, 0, 0, f.text_spec().len() as int),
                        forall|j: int|
                            0 <= j < k ==> #[trigger] r@[j]@ == f.text_spec().subrange(
                                chunks@[j].start_byte as int,
                                chunks@[j].end_byte as int,
                            ),
                    decreases chunks@.len() - k,
                {
                    let c = &chunks[k];
                    proof {
                        assert(chunk_span_wf(chunks@[k as int], 0, f.text_spec().len() as int));
                    }
                    r.push(f.chunk_text(c));
                    k = k + 1;
                }
                r
            },
            None => {
                proof {
                    assert(false);
                }
                Vec::new()
            },
        }
    }

    /// Substitutes source text into search results: every result whose
    /// path is known and whose byte span lies inside that file's current
    /// text is returned with that text; the rest are dropped. The text is
    /// read from the in-memory file set, never the filesystem, so it is
    /// the text whose chunks were embedded.
    #[verifier::rlimit(80)]
    pub fn chunks_to_response(&self, chunks: Vec<OutputChunk>) -> (r: Vec<ResponseChunk>)
        requires
            self.wf(),
        ensures
            exists|keep: Seq<int>|
                hydration_post(self.files_view(), chunks@, r@, keep),
    {
        let ghost fs = self.files@;
        let ghost all = chunks@;
        let ghost mut keep: Seq<int> = Seq::empty();
        let mut r: Vec<ResponseChunk> = Vec::new();
        let mut t: usize = 0;
        while t < chunks.len()
            invariant
                self.wf(),
                fs == self.files@,
                all == chunks@,
                t <= all.len(),
                keep.len() == r@.len(),
                forall|u: int| 0 <= u < keep.len() ==> 0 <= #[trigger] keep[u] < t,
                forall|u: int| 0 <= u && u + 1 < keep.len() ==> #[trigger] keep[u] < keep[u + 1],
                forall|u: int| 0 <= u < keep.len() ==> keeps(fs, all[#[trigger] keep[u]]),
                forall|u: int| 0 <= u < r@.len() ==> hydrated_ok(fs, all[keep[u]], #[trigger] r@[u]),
                forall|u: int| 0 <= u < t && !keep.contains(u) ==> !keeps(fs, #[trigger] all[u]),
            decreases all.len() - t,
        {
            let o = &chunks[t];
            let ghost keep_pre = keep;
            let found = find_file(&self.files, &o.path);
            match found {
                Some(k) => {
                    proof {
                        lemma_fs_text_at(fs, k as int);
                        assert(fs_has_path(fs, o.path@));
                        assert(fs_idx(fs, o.path@) == k as int);
                    }
                    if o.byte.start <= o.byte.end && o.byte.end <= self.files[k].text.len() {
                        proof {
                            assert(keeps(fs, all[t as int]));
                        }
                        let content = byte_slice(&self.files[k].text, o.byte.start, o.byte.end);
                        let path = byte_slice(&o.path, 0, o.path.len());
                        proof {
                            assert(path@ =~= o.path@);
                        }
                        r.push(ResponseChunk { path, row: o.row, column: o.column, content });
                        proof {
                            keep = keep.push(t as int);
                            assert(hydrated_ok(fs, all[t as int], r@[r@.len() - 1]));
                            assert forall|u: int|
                                0 <= u < t + 1 && !keep.contains(u) implies !keeps(
                                fs,
                                #[trigger] all[u],
                            ) by {
                                lemma_contains_push(keep_pre, t as int, u);
                            }
                        }
                    } else {
                        proof {
                            assert(!keeps(fs, all[t as int]));
                            assert forall|u: int|
                                0 <= u < t + 1 && !keep.contains(u) implies !keeps(
                                fs,
                                #[trigger] all[u],
                            ) by {}
                        }
                    }
                },
                None => {
                    proof {
                        assert(!keeps(fs, all[t as int]));
                        assert forall|u: int|
                            0 <= u < t + 1 && !keep.contains(u) implies !keeps(
                            fs,
                            #[trigger] all[u],
                        ) by {}
                    }
                },
            }
            t = t + 1;
        }
        proof {
            assert(hydration_post(self.files_view(), chunks@, r@, keep));
        }
        r
    }
}

/// The index of the file with `path`, if any.
fn find_file(files: &Vec<ProjectFile>, path: &Vec<u8>) -> (r: Option<usize>)
    ensures
        match r {
            Some(k) => 0 <= k < files@.len() && files@[k as int].path_spec() == path@,
            None => !fs_has_path(files@, path@),
        },
{
    let mut i: usize = 0;
    let mut found: bool = false;
    let mut idx: usize = 0;
    while i < files.len() && !found
        invariant
            i <= files@.len(),
            found ==> idx < files@.len() && files@[idx as int].path_spec() == path@,
            !found ==> forall|j: int| 0 <= j < i ==> (#[trigger] files@[j]).path_spec() != path@,
        decreases files@.len() - i,
    {
        if bytes_eq(&files[i].path, path) {
            found = true;
            idx = i;
        }
        i = i + 1;
    }
    if found {
        Some(idx)
    } else {
        None
    }
}

/// Replacing the file at one index with one of the same path keeps every
/// path's text relation, except possibly that path's own text.
proof fn lemma_fs_replace(pre: Seq<ProjectFile>, post: Seq<ProjectFile>, k: int)
    requires
        0 <= k < pre.len(),
        post.len() == pre.len(),
        fs_paths_unique(pre),
        post[k].path_spec() == pre[k].path_spec(),
        forall|j: int| 0 <= j < pre.len() && j != k ==> post[j] == pre[j],
    ensures
        fs_paths_unique(post),
        forall|q: Seq<u8>|
            q != pre[k].path_spec() ==> fs_text(post, q) == fs_text(pre, q),
{
    assert forall|a: int, b: int| 0 <= a < b < post.len() implies (
    #[trigger] post[a]).path_spec() != (#[trigger] post[b]).path_spec() by {
        assert(post[a].path_spec() == pre[a].path_spec());
        assert(post[b].path_spec() == pre[b].path_spec());
    }
    assert forall|q: Seq<u8>| q != pre[k].path_spec() implies fs_text(post, q) == fs_text(
        pre,
        q,
    ) by {
        if fs_has_path(pre, q) {
            let a = fs_idx(pre, q);
            assert(0 <= a < pre.len() && pre[a].path_spec() == q);
            assert(a != k);
            assert(post[a].path_spec() == q);
            assert(fs_has_path(post, q));
            let a2 = fs_idx(post, q);
            assert(0 <= a2 < post.len() && post[a2].path_spec() == q);
            assert(a2 == a) by {
                if a2 != a {
                    assert(fs_paths_unique(post));
                }
            }
        } else {
            if fs_has_path(post, q) {
                let a2 = fs_idx(post, q);
                assert(0 <= a2 < post.len() && post[a2].path_spec() == q);
                assert(pre[a2].path_spec() == q);
                assert(fs_has_path(pre, q));
            }
        }
    }
}

/// Appending a file under a path nobody holds keeps every other path's
/// text relation.
proof fn lemma_fs_push(pre: Seq<ProjectFile>, post: Seq<ProjectFile>, path: Seq<u8>)
    requires
        fs_paths_unique(pre),
        !fs_has_path(pre, path),
        post.len() == pre.len() + 1,
        post[pre.len() as int].path_spec() == path,
        forall|j: int| 0 <= j < pre.len() ==> post[j] == pre[j],
    ensures
        fs_paths_unique(post),
        forall|q: Seq<u8>| q != path ==> fs_text(post, q) == fs_text(pre, q),
{
    assert forall|a: int, b: int| 0 <= a < b < post.len() implies (
    #[trigger] post[a]).path_spec() != (#[trigger] post[b]).path_spec() by {
        if b < pre.len() {
            assert(post[a] == pre[a]);
            assert(post[b] == pre[b]);
        } else {
            assert(post[a] == pre[a]);
            if post[a].path_spec() == path {
                assert(fs_has_path(pre, path));
            }
        }
    }
    assert forall|q: Seq<u8>| q != path implies fs_text(post, q) == fs_text(pre, q) by {
        if fs_has_path(pre, q) {
            let a = fs_idx(pre, q);
            assert(0 <= a < pre.len() && pre[a].path_spec() == q);
            assert(post[a].path_spec() == q);
            assert(fs_has_path(post, q));
            let a2 = fs_idx(post, q);
            assert(0 <= a2 < post.len() && post[a2].path_spec() == q);
            assert(a2 == a) by {
                if a2 != a {
                    assert(fs_paths_unique(post));
                }
            }
        } else {
            if fs_has_path(post, q) {
                let a2 = fs_idx(post, q);
                assert(0 <= a2 < post.len() && post[a2].path_spec() == q);
                if a2 < pre.len() {
                    assert(pre[a2].path_spec() == q);
                    assert(fs_has_path(pre, q));
                }
            }
        }
    }
}

/// Membership in a sequence extended by one element.
proof fn lemma_contains_push(s: Seq<int>, x: int, y: int)
    ensures
        s.push(x).contains(y) <==> (s.contains(y) || x == y),
{
    if s.contains(y) {
        let i = choose|i: int| 0 <= i < s.len() && s[i] == y;
        assert(s.push(x)[i] == y);
    }
    assert(s.push(x)[s.len() as int] == x);
    if s.push(x).contains(y) {
        let i = choose|i: int| 0 <= i < s.push(x).len() && s.push(x)[i] == y;
        if i < s.len() {
            assert(s[i] == y);
        }
    }
}

/// When paths are unique, the text looked up for the path at index `k` is
/// that file's own text.
proof fn lemma_fs_text_at(fs: Seq<ProjectFile>, k: int)
    requires
        0 <= k < fs.len(),
        fs_paths_unique(fs),
    ensures
        fs_text(fs, fs[k].path_spec()) == Some(fs[k].text_spec()),
        fs_idx(fs, fs[k].path_spec()) == k,
{
    assert(fs_has_path(fs, fs[k].path_spec()));
    let k2 = fs_idx(fs, fs[k].path_spec());
    assert(0 <= k2 < fs.len() && fs[k2].path_spec() == fs[k].path_spec());
    if k2 != k {
        assert(fs_paths_unique(fs));
    }
}

} // verus!
