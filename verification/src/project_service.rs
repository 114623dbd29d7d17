//! The per-project indexing service: the file set and the vector store
//! bound together, with one operation per message the project's actor
//! serves. Embedding happens outside: an update hands back the chunk texts
//! to embed, and a second call commits the embeddings to the store.

use vstd::prelude::*;
use crate::code_splitter::Chunk;
use crate::embedding::Embedding;
use crate::errors::IndexError;
use crate::project_files::{
    FileSource, ProjectFile, ProjectFiles, ResponseChunk, chunk_texts_post, file_chunk_texts_post,
    file_chunks_post, from_sources, fs_has_path, fs_idx, fs_text, hydration_post,
    texts_of_file_ok, texts_ok,
};
use crate::project_repository::{
    FileEntry, OutputChunk, ProjectRepository, search_post, spec_rows, total_rows, upsert_post,
    search_limit, paths_unique,
};
use crate::rpc::RpcError;
use crate::text::byte_slice;

verus! {

/// What links one search's raw results to its answer: the outputs are the
/// nearest rows of the service's store, as many as the store can give up
/// to the search limit, and the answer is their hydration against the
/// service's file set.
pub open spec fn search_results_linked(
    svc: ProjectService,
    q: Seq<i64>,
    rs: Seq<ResponseChunk>,
    outs: Seq<OutputChunk>,
) -> bool {
    &&& exists|sel: Seq<(int, int)>| search_post(svc.store_view(), q, outs, sel)
    &&& exists|keep: Seq<int>| hydration_post(svc.files_view(), outs, rs, keep)
    &&& outs.len() == if total_rows(svc.store_view()) < search_limit() {
        total_rows(svc.store_view())
    } else {
        search_limit()
    }
}

/// What a served search returns: the hydration of the store's nearest
/// rows to the query.
pub open spec fn search_code_post(svc: ProjectService, q: Seq<i64>, rs: Seq<ResponseChunk>) -> bool {
    exists|outs: Seq<OutputChunk>| search_results_linked(svc, q, rs, outs)
}

/// Exhibiting one raw result list that links a search's answer to the
/// store settles the search postcondition.
#[verifier::rlimit(100)]
#[verifier::spinoff_prover]
proof fn lemma_search_linked(
    svc: ProjectService,
    q: Seq<i64>,
    rs: Seq<ResponseChunk>,
    outs: Seq<OutputChunk>,
)
    requires
        exists|sel: Seq<(int, int)>| search_post(svc.repository.entries(), q, outs, sel),
        exists|keep: Seq<int>| hydration_post(svc.files.files_view(), outs, rs, keep),
        outs.len() == if total_rows(svc.repository.entries()) < search_limit() {
            total_rows(svc.repository.entries())
        } else {
            search_limit()
        },
    ensures
        search_code_post(svc, q, rs),
{
    assert(svc.store_view() == svc.repository.entries());
    assert(svc.files_view() == svc.files.files_view());
    let sel = choose|sel: Seq<(int, int)>| search_post(svc.repository.entries(), q, outs, sel);
    assert(search_post(svc.store_view(), q, outs, sel));
    let keep = choose|keep: Seq<int>| hydration_post(svc.files.files_view(), outs, rs, keep);
    assert(hydration_post(svc.files_view(), outs, rs, keep));
    assert(search_results_linked(svc, q, rs, outs));
}

/// One project's indexing state: its file set and its vector store.
pub struct ProjectService {
    files: ProjectFiles,
    repository: ProjectRepository,
}

impl ProjectService {
    /// The file set, as the contracts speak of it.
    pub closed spec fn files_view(self) -> Seq<ProjectFile> {
        self.files.files_view()
    }

    /// The store's entries, as the contracts speak of them.
    pub closed spec fn store_view(self) -> Seq<FileEntry> {
        self.repository.entries()
    }

    /// The store's logical clock, the source of its time stamps.
    pub closed spec fn store_tick(self) -> u64 {
        self.repository.tick()
    }

    /// Well-formedness of both halves.
    pub closed spec fn wf(self) -> bool {
        &&& self.files.wf()
        &&& self.repository.wf()
    }

    /// The store's paths are unique; restated for callers of the lemmas.
    pub proof fn lemma_store_paths_unique(self)
        requires
            self.wf(),
        ensures
            paths_unique(self.store_view()),
    {
        self.repository.lemma_wf_paths_unique();
    }

    /// Brings a project up from its scanned sources: every admitted file
    /// is parsed and held; the store starts empty, to be filled as the
    /// caller embeds each file's chunks.
    pub fn new(sources: Vec<FileSource>) -> (r: ProjectService)
        ensures
            r.wf(),
            r.store_view() =~= Seq::<FileEntry>::empty(),
            forall|k: int|
                0 <= k < r.files_view().len() ==> from_sources(
                    sources@,
                    #[trigger] r.files_view()[k],
                ),
    {
        let files = ProjectFiles::new(sources);
        let repository = ProjectRepository::new();
        ProjectService { files, repository }
    }

    /// The paths of every file the service holds.
    pub fn indexed_paths(&self) -> (r: Vec<Vec<u8>>)
        requires
            self.wf(),
        ensures
            r@.len() == self.files_view().len(),
            forall|k: int| 0 <= k < r@.len() ==> #[trigger] r@[k]@ == self.files_view()[k].path_spec(),
    {
        let all = self.files.all_chunks();
        let mut r: Vec<Vec<u8>> = Vec::new();
        let mut k: usize = 0;
        while k < all.len()
            invariant
                k <= all@.len(),
                all@.len() == self.files_view().len(),
                r@.len() == k,
                forall|j: int|
                    0 <= j < all@.len() ==> (#[trigger] all@[j]).0@ == self.files_view()[
                        j
                    ].path_spec(),
                forall|j: int| 0 <= j < k ==> #[trigger] r@[j]@ == self.files_view()[j].path_spec(),
            decreases all@.len() - k,
        {
            let p = &all[k].0;
            r.push(byte_slice(p, 0, p.len()));
            proof {
                assert(r@[k as int]@ =~= all@[k as int].0@);
            }
            k = k + 1;
        }
        r
    }

    /// The texts of the chunks the file at `path` currently splits into,
    /// in chunk order: what the caller must embed before committing the
    /// file to the store. Empty when the path is unknown.
    pub fn file_chunk_texts(&self, path: &Vec<u8>) -> (r: Vec<Vec<u8>>)
        requires
            self.wf(),
        ensures
            !fs_has_path(self.files_view(), path@) ==> r@.len() == 0,
            fs_has_path(self.files_view(), path@) ==> texts_of_file_ok(
                self.files_view()[fs_idx(self.files_view(), path@)],
                r@,
            ),
    {
        match find_service_file(&self.files, path) {
            Some((texts, w)) => {
                proof {
                    let f = self.files_view()[fs_idx(self.files_view(), path@)];
                    assert(file_chunk_texts_post(f, w@, texts@));
                    assert(texts_of_file_ok(f, texts@));
                }
                texts
            },
            None => Vec::new(),
        }
    }

    /// Updates (or first indexes) the file at `path` from `text` and hands
    /// back the texts of its new chunks, to be embedded and then committed
    /// with [`Self::file_embedded`]. On failure the file set keeps its
    /// previous state for that path; the store is untouched either way.
    #[verifier::rlimit(60)]
    pub fn file_updated(&mut self, path: &Vec<u8>, text: Vec<u8>) -> (r: Result<
        Vec<Vec<u8>>,
        RpcError,
    >)
        requires
            old(self).wf(),
        ensures
            final(self).wf(),
            final(self).store_view() == old(self).store_view(),
            r is Ok ==> fs_text(final(self).files_view(), path@) == Some(text@),
            r matches Ok(ts) ==> fs_has_path(final(self).files_view(), path@)
                && texts_of_file_ok(
                final(self).files_view()[fs_idx(final(self).files_view(), path@)],
                ts@,
            ),
            r matches Ok(ts) ==> texts_ok(text@, ts@),
            r is Ok ==> forall|q: Seq<u8>|
                q != path@ ==> fs_text(final(self).files_view(), q) == fs_text(
                    old(self).files_view(),
                    q,
                ),
            r is Err ==> forall|q: Seq<u8>|
                fs_text(final(self).files_view(), q) == fs_text(old(self).files_view(), q),
    {
        let ghost text0 = text@;
        match self.files.create_or_update(path, text) {
            Ok(()) => {
                match find_service_file(&self.files, path) {
                    Some((texts, w)) => {
                        proof {
                            let f = self.files.files_view()[fs_idx(
                                self.files.files_view(),
                                path@,
                            )];
                            assert(fs_text(self.files.files_view(), path@) == Some(f.text_spec()));
                            assert(f.text_spec() == text0);
                            assert(file_chunk_texts_post(f, w@, texts@));
                            assert(texts_of_file_ok(f, texts@));
                            assert(chunk_texts_post(text0, w@, texts@));
                            assert(texts_ok(text0, texts@));
                        }
                        Ok(texts)
                    },
                    None => {
                        proof {
                            assert(fs_has_path(self.files.files_view(), path@));
                        }
                        Ok(Vec::new())
                    },
                }
            },
            Err(e) => Err(RpcError::from(e)),
        }
    }

    /// Commits the file at `path` to the store: splits it afresh and
    /// replaces its rows with its chunks under the given embeddings, which
    /// must be one per chunk. Nothing changes when the path is unknown,
    /// when the embedding count does not match the chunk count, or when
    /// the store refuses the file.
    pub fn file_embedded(&mut self, path: &Vec<u8>, embeddings: Vec<Embedding>) -> (r: Result<
        (),
        RpcError,
    >)
        requires
            old(self).wf(),
        ensures
            final(self).wf(),
            final(self).files_view() == old(self).files_view(),
            r is Err ==> final(self).store_view() == old(self).store_view(),
            r is Ok ==> exists|cs: Seq<Chunk>, id: i64|
                {
                    &&& cs.len() == embeddings@.len()
                    &&& file_chunks_post(
                        old(self).files_view()[fs_idx(old(self).files_view(), path@)],
                        cs,
                    )
                    &&& upsert_post(
                        old(self).store_view(),
                        final(self).store_view(),
                        path@,
                        id,
                        spec_rows(id, cs, embeddings@),
                        final(self).store_tick(),
                    )
                },
            !fs_has_path(old(self).files_view(), path@) ==> r is Err,
    {
        if !self.files.has_path(path) {
            return Err(RpcError::from(IndexError::Internal));
        }
        let chunks = self.files.file_chunks(path);
        proof {
            assert(file_chunks_post(
                self.files.files_view()[fs_idx(self.files.files_view(), path@)],
                chunks@,
            ));
        }
        if chunks.len() != embeddings.len() {
            return Err(RpcError::from(IndexError::EmbeddingFailed));
        }
        let path_copy = byte_slice(path, 0, path.len());
        proof {
            assert(path_copy@ =~= path@);
        }
        match self.repository.insert_file(path_copy, &chunks, embeddings) {
            Ok(id) => {
                proof {
                    assert(upsert_post(
                        old(self).store_view(),
                        self.repository.entries(),
                        path@,
                        id,
                        spec_rows(id, chunks@, embeddings@),
                        self.store_tick(),
                    ));
                }
                Ok(())
            },
            Err(e) => Err(RpcError::from(e)),
        }
    }

    /// Serves a search: the store's nearest rows to the query embedding,
    /// hydrated with the current text of each row's file. Every returned
    /// chunk stems from a row the store holds now, and carries that file's
    /// current bytes over the chunk's span.
    pub fn search_code(&self, query_embedding: &Embedding) -> (r: Result<
        Vec<ResponseChunk>,
        RpcError,
    >)
        requires
            self.wf(),
        ensures
            r matches Ok(rs) ==> search_code_post(*self, query_embedding@, rs@),
            r is Ok,
    {
        let outputs = self.repository.search(query_embedding);
        let ghost outs = outputs@;
        let responses = self.files.chunks_to_response(outputs);
        proof {
            lemma_search_linked(*self, query_embedding@, responses@, outs);
        }
        Ok(responses)
    }
}

/// The chunk texts of the file at `path`, if the path is known, together
/// with the chunks they were cut along.
fn find_service_file(files: &ProjectFiles, path: &Vec<u8>) -> (r: Option<
    (Vec<Vec<u8>>, Ghost<Seq<Chunk>>),
>)
    requires
        files.wf(),
    ensures
        r matches Some(p) ==> fs_has_path(files.files_view(), path@) && file_chunk_texts_post(
            files.files_view()[fs_idx(files.files_view(), path@)],
            p.1@,
            p.0@,
        ),
        r is None ==> !fs_has_path(files.files_view(), path@),
{
    let chunks = files.file_chunks(path);
    let has = files.has_path(path);
    if has {
        let texts = files.chunk_texts_for(path, &chunks);
        proof {
            let f = files.files_view()[fs_idx(files.files_view(), path@)];
            assert(fs_text(files.files_view(), path@) == Some(f.text_spec()));
            assert(file_chunks_post(f, chunks@));
            assert(file_chunk_texts_post(f, chunks@, texts@));
        }
        Some((texts, Ghost(chunks@)))
    } else {
        None
    }
}


} // verus!
