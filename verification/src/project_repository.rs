//! The in-memory vector store: file records, their chunk rows, and
//! nearest-neighbour search over the rows' embeddings.
//!
//! The store keeps the two logical tables of the engine - files and chunk
//! rows - as one vector of entries, each a file record together with its
//! rows; the tables of the data model are the projections of that vector.
//! Replacing a file's rows is atomic: the entry's row vector is swapped
//! wholesale, so no row of a prior version survives an update.

use vstd::prelude::*;
use crate::code_splitter::Chunk;
use crate::embedding::Embedding;
use crate::errors::IndexError;
use crate::text::bytes_eq;

verus! {

/// A row of the files table.
#[derive(Debug)]
pub struct FileRecord {
    pub file_id: i64,
    pub path: Vec<u8>,
    pub created_at: u64,
    pub updated_at: u64,
}

/// A row of the chunks table: one chunk's spans and its embedding.
#[derive(Debug)]
pub struct StoredChunk {
    pub file_id: i64,
    pub start_row: usize,
    pub start_col: usize,
    pub end_row: usize,
    pub end_col: usize,
    pub start_byte: usize,
    pub end_byte: usize,
    pub embedding: Embedding,
}

/// A file record together with its chunk rows.
#[derive(Debug)]
pub struct FileEntry {
    pub record: FileRecord,
    pub rows: Vec<StoredChunk>,
}

/// A half-open index range.
#[derive(Clone, Copy, Debug, PartialEq, Eq, Structural)]
pub struct IndexRange {
    pub start: usize,
    pub end: usize,
}

/// A search result: where the matching chunk lies, in rows, columns and
/// bytes of its file.
#[derive(Debug)]
pub struct OutputChunk {
    pub path: Vec<u8>,
    pub row: IndexRange,
    pub column: IndexRange,
    pub byte: IndexRange,
}

/// No two entries name the same path.
pub open spec fn paths_unique(es: Seq<FileEntry>) -> bool {
    forall|i: int, j: int|
        0 <= i < j < es.len() ==> (#[trigger] es[i]).record.path@ != (#[trigger] es[j]).record.path@
}

/// Some entry names `path`.
pub open spec fn has_path(es: Seq<FileEntry>, path: Seq<u8>) -> bool {
    exists|i: int| 0 <= i < es.len() && (#[trigger] es[i]).record.path@ == path
}

/// The index of the entry naming `path` (meaningful when `has_path`).
pub open spec fn entry_idx(es: Seq<FileEntry>, path: Seq<u8>) -> int {
    choose|i: int| 0 <= i < es.len() && (#[trigger] es[i]).record.path@ == path
}

/// The chunk rows stored for `path`: those of its entry, or none.
pub open spec fn rows_for(es: Seq<FileEntry>, path: Seq<u8>) -> Seq<StoredChunk> {
    if has_path(es, path) {
        es[entry_idx(es, path)].rows@
    } else {
        Seq::empty()
    }
}

/// Two entries that agree on every field the store promises to keep.
pub open spec fn entry_same(a: FileEntry, b: FileEntry) -> bool {
    &&& a.record.file_id == b.record.file_id
    &&& a.record.path@ == b.record.path@
    &&& a.record.created_at == b.record.created_at
    &&& a.record.updated_at == b.record.updated_at
    &&& a.rows@ == b.rows@
}

/// The row a chunk and its embedding become under file `id`.
pub open spec fn spec_row(id: i64, c: Chunk, e: Embedding) -> StoredChunk {
    StoredChunk {
        file_id: id,
        start_row: c.start.row,
        start_col: c.start.column,
        end_row: c.end.row,
        end_col: c.end.column,
        start_byte: c.start_byte,
        end_byte: c.end_byte,
        embedding: e,
    }
}

/// The rows that `chunks` and `embeddings` become under file `id`, in order.
pub open spec fn spec_rows(id: i64, cs: Seq<Chunk>, es: Seq<Embedding>) -> Seq<StoredChunk> {
    Seq::new(cs.len(), |i: int| spec_row(id, cs[i], es[i]))
}

/// Whether a batch of embeddings fits a store of dimension `d`: all of one
/// width, and of width `d` when the store has already fixed one.
pub open spec fn dims_compatible(d: Option<usize>, es: Seq<Embedding>) -> bool {
    match d {
        Some(v) => forall|i: int| 0 <= i < es.len() ==> (#[trigger] es[i])@.len() == v,
        None => forall|i: int| 0 <= i < es.len() ==> (#[trigger] es[i])@.len() == es[0]@.len(),
    }
}

/// The store's dimension after accepting a batch: unchanged once fixed,
/// else fixed by the batch's first embedding, if it has one.
pub open spec fn spec_new_dim(d: Option<usize>, es: Seq<Embedding>) -> Option<usize> {
    if d is Some {
        d
    } else if es.len() > 0 {
        Some(es[0]@.len() as usize)
    } else {
        None
    }
}

/// How one upsert changes the entries: the entry for `path` (found, or
/// appended under a fresh id) carries exactly the new rows and the new
/// update stamp; every other entry is untouched.
pub open spec fn upsert_post(
    pre: Seq<FileEntry>,
    post: Seq<FileEntry>,
    path: Seq<u8>,
    id: i64,
    rows: Seq<StoredChunk>,
    now: u64,
) -> bool {
    if has_path(pre, path) {
        let i = entry_idx(pre, path);
        &&& post.len() == pre.len()
        &&& id == pre[i].record.file_id
        &&& post[i].record.file_id == id
        &&& post[i].record.path@ == path
        &&& post[i].record.created_at == pre[i].record.created_at
        &&& post[i].record.updated_at == now
        &&& post[i].rows@ == rows
        &&& forall|j: int| 0 <= j < pre.len() && j != i ==> entry_same(#[trigger] post[j], pre[j])
    } else {
        &&& post.len() == pre.len() + 1
        &&& post[pre.len() as int].record.file_id == id
        &&& post[pre.len() as int].record.path@ == path
        &&& post[pre.len() as int].record.created_at == now
        &&& post[pre.len() as int].record.updated_at == now
        &&& post[pre.len() as int].rows@ == rows
        &&& forall|j: int| 0 <= j < pre.len() ==> entry_same(#[trigger] post[j], pre[j])
        &&& forall|j: int| 0 <= j < pre.len() ==> (#[trigger] pre[j]).record.file_id != id
    }
}

/// How many results a search returns at most.
pub open spec fn search_limit() -> int {
    5
}

/// The number of chunk rows in the first `i` entries.
pub open spec fn total_rows_prefix(es: Seq<FileEntry>, i: int) -> int
    decreases i,
{
    if i <= 0 {
        0
    } else {
        total_rows_prefix(es, i - 1) + es[i - 1].rows@.len()
    }
}

/// The number of chunk rows in the store.
pub open spec fn total_rows(es: Seq<FileEntry>) -> int {
    total_rows_prefix(es, es.len() as int)
}

/// An (entry, row) index pair naming one stored chunk row.
pub open spec fn valid_pair(es: Seq<FileEntry>, p: (int, int)) -> bool {
    0 <= p.0 < es.len() && 0 <= p.1 < es[p.0].rows@.len()
}

/// The squared distance from the query to the row `p` names.
pub open spec fn pair_dist(es: Seq<FileEntry>, q: Seq<i64>, p: (int, int)) -> int {
    crate::embedding::sq_dist(q, es[p.0].rows@[p.1].embedding@)
}

/// The output chunk carries exactly the spans and path of the row `p` names.
pub open spec fn output_matches(es: Seq<FileEntry>, o: OutputChunk, p: (int, int)) -> bool {
    &&& o.path@ == es[p.0].record.path@
    &&& o.row.start == es[p.0].rows@[p.1].start_row
    &&& o.row.end == es[p.0].rows@[p.1].end_row
    &&& o.column.start == es[p.0].rows@[p.1].start_col
    &&& o.column.end == es[p.0].rows@[p.1].end_col
    &&& o.byte.start == es[p.0].rows@[p.1].start_byte
    &&& o.byte.end == es[p.0].rows@[p.1].end_byte
}

/// What a search returns: `out` names pairwise distinct stored rows through
/// `sel`, in ascending order of distance to the query, and no row outside
/// the selection is closer than the furthest selected one.
pub open spec fn search_post(
    es: Seq<FileEntry>,
    q: Seq<i64>,
    out: Seq<OutputChunk>,
    sel: Seq<(int, int)>,
) -> bool {
    &&& sel.len() == out.len()
    &&& forall|t: int| 0 <= t < sel.len() ==> valid_pair(es, #[trigger] sel[t])
    &&& forall|t: int, u: int| 0 <= t < u < sel.len() ==> #[trigger] sel[t] != #[trigger] sel[u]
    &&& forall|t: int| 0 <= t < out.len() ==> output_matches(es, #[trigger] out[t], sel[t])
    &&& forall|t: int|
        0 <= t && t + 1 < sel.len() ==> pair_dist(es, q, #[trigger] sel[t]) <= pair_dist(
            es,
            q,
            sel[t + 1],
        )
    &&& forall|p: (int, int)|
        #![trigger valid_pair(es, p)]
        valid_pair(es, p) && !sel.contains(p) && sel.len() > 0 ==> pair_dist(es, q, p)
            >= pair_dist(es, q, sel[sel.len() - 1])
}

/// One scored candidate row during a search.
#[derive(Clone, Copy, Debug, PartialEq, Eq, Structural)]
struct Cand {
    entry: usize,
    row: usize,
    dist: u64,
}

/// The index pair a candidate names.
spec fn pair_of(c: Cand) -> (int, int) {
    (c.entry as int, c.row as int)
}

/// A candidate names a stored row and carries its true distance.
spec fn cand_ok(es: Seq<FileEntry>, q: Seq<i64>, c: Cand) -> bool {
    valid_pair(es, pair_of(c)) && c.dist == pair_dist(es, q, pair_of(c))
}

/// Lexicographic order on index pairs.
spec fn lex_lt(a: (int, int), b: (int, int)) -> bool {
    a.0 < b.0 || (a.0 == b.0 && a.1 < b.1)
}

/// Some candidate names `p`.
spec fn cand_has(cs: Seq<Cand>, p: (int, int)) -> bool {
    exists|k: int| 0 <= k < cs.len() && pair_of(#[trigger] cs[k]) == p
}

/// The index pairs of the selected candidates, in selection order.
spec fn pairs_of(sel: Seq<Cand>) -> Seq<(int, int)> {
    Seq::new(sel.len(), |t: int| pair_of(sel[t]))
}

/// How many of the flags are set.
spec fn count_true(s: Seq<bool>) -> int
    decreases s.len(),
{
    if s.len() == 0 {
        0
    } else {
        count_true(s.drop_last()) + if s.last() {
            1int
        } else {
            0int
        }
    }
}

proof fn lemma_count_true_le(s: Seq<bool>)
    ensures
        0 <= count_true(s) <= s.len(),
    decreases s.len(),
{
    if s.len() > 0 {
        lemma_count_true_le(s.drop_last());
    }
}

proof fn lemma_count_true_update(s: Seq<bool>, k: int)
    requires
        0 <= k < s.len(),
        !s[k],
    ensures
        count_true(s.update(k, true)) == count_true(s) + 1,
    decreases s.len(),
{
    let s2 = s.update(k, true);
    if k == s.len() - 1 {
        assert(s2.drop_last() =~= s.drop_last());
    } else {
        assert(s2.drop_last() =~= s.drop_last().update(k, true));
        lemma_count_true_update(s.drop_last(), k);
    }
}

proof fn lemma_count_true_all(s: Seq<bool>)
    requires
        forall|k: int| 0 <= k < s.len() ==> s[k],
    ensures
        count_true(s) == s.len(),
    decreases s.len(),
{
    if s.len() > 0 {
        lemma_count_true_all(s.drop_last());
    }
}

proof fn lemma_count_true_none(s: Seq<bool>)
    requires
        forall|k: int| 0 <= k < s.len() ==> !s[k],
    ensures
        count_true(s) == 0,
    decreases s.len(),
{
    if s.len() > 0 {
        lemma_count_true_none(s.drop_last());
    }
}

/// The nearest unmarked candidate, if any is unmarked.
fn find_best(cand: &Vec<Cand>, used: &Vec<bool>) -> (r: Option<usize>)
    requires
        used@.len() == cand@.len(),
    ensures
        match r {
            Some(b) => 0 <= b < cand@.len() && !used@[b as int] && forall|k: int|
                0 <= k < cand@.len() && !used@[k] ==> (#[trigger] cand@[k]).dist >= cand@[
                    b as int
                ].dist,
            None => forall|k: int| 0 <= k < cand@.len() ==> used@[k],
        },
{
    let mut best: usize = 0;
    let mut have: bool = false;
    let mut k: usize = 0;
    while k < cand.len()
        invariant
            k <= cand@.len(),
            used@.len() == cand@.len(),
            have ==> 0 <= best < cand@.len() && !used@[best as int],
            have ==> forall|k2: int|
                0 <= k2 < k && !used@[k2] ==> (#[trigger] cand@[k2]).dist >= cand@[best as int].dist,
            !have ==> forall|k2: int| 0 <= k2 < k ==> used@[k2],
        decreases cand@.len() - k,
    {
        if !used[k] {
            if !have || cand[k].dist < cand[best].dist {
                best = k;
                have = true;
            }
        }
        k = k + 1;
    }
    if have {
        Some(best)
    } else {
        None
    }
}

/// The in-memory store of one project's index.
pub struct ProjectRepository {
    entries: Vec<FileEntry>,
    next_file_id: i64,
    clock: u64,
    dim: Option<usize>,
}

impl ProjectRepository {
    /// The entries, as the contracts speak of them.
    pub closed spec fn entries(self) -> Seq<FileEntry> {
        self.entries@
    }

    /// The store's logical clock, the source of the time stamps.
    pub closed spec fn tick(self) -> u64 {
        self.clock
    }

    /// The next file id to be handed out.
    pub closed spec fn next_id(self) -> i64 {
        self.next_file_id
    }

    /// The embedding dimension the store is committed to, fixed by the
    /// first embedding it accepted; None while the store holds no row.
    pub closed spec fn dimension(self) -> Option<usize> {
        self.dim
    }

    /// Well-formedness: paths and file ids are unique, ids are below the
    /// next to be handed out, and every row carries its entry's id.
    /// Constructors establish it and every method preserves it.
    pub closed spec fn wf(self) -> bool {
        &&& 0 < self.next_file_id
        &&& paths_unique(self.entries@)
        &&& forall|i: int|
            0 <= i < self.entries@.len() ==> 0 < (#[trigger] self.entries@[i]).record.file_id
                < self.next_file_id
        &&& forall|i: int, j: int|
            0 <= i < j < self.entries@.len() ==> (#[trigger] self.entries@[i]).record.file_id != (
            #[trigger] self.entries@[j]).record.file_id
        &&& forall|i: int, k: int|
            0 <= i < self.entries@.len() && 0 <= k < self.entries@[i].rows@.len() ==> (
            #[trigger] self.entries@[i].rows@[k]).file_id == self.entries@[i].record.file_id
        &&& forall|i: int|
            0 <= i < self.entries@.len() && (#[trigger] self.entries@[i]).rows@.len() > 0
                ==> self.dim is Some
        &&& forall|i: int, k: int|
            0 <= i < self.entries@.len() && 0 <= k < self.entries@[i].rows@.len() ==> (
            #[trigger] self.entries@[i].rows@[k]).embedding@.len() == self.dim->0
    }

    /// A well-formed store's paths are unique; stated for callers, which
    /// cannot see into the well-formedness predicate.
    pub proof fn lemma_wf_paths_unique(self)
        requires
            self.wf(),
        ensures
            paths_unique(self.entries()),
    {
    }

    /// An empty store.
    pub fn new() -> (r: Self)
        ensures
            r.entries() =~= Seq::<FileEntry>::empty(),
            r.next_id() == 1,
            r.dimension() is None,
            r.wf(),
    {
        ProjectRepository { entries: Vec::new(), next_file_id: 1, clock: 0, dim: None }
    }

    /// The index of the entry naming `path`, if any.
    fn find_path(&self, path: &Vec<u8>) -> (r: Option<usize>)
        ensures
            match r {
                Some(k) => 0 <= k < self.entries().len() && self.entries()[k as int].record.path@
                    == path@,
                None => !has_path(self.entries(), path@),
            },
    {
        let mut i: usize = 0;
        let mut found: bool = false;
        let mut idx: usize = 0;
        while i < self.entries.len() && !found
            invariant
                i <= self.entries@.len(),
                found ==> idx < self.entries@.len() && self.entries@[idx as int].record.path@
                    == path@,
                !found ==> forall|j: int|
                    0 <= j < i ==> (#[trigger] self.entries@[j]).record.path@ != path@,
            decreases self.entries@.len() - i,
        {
            if bytes_eq(&self.entries[i].record.path, path) {
                found = true;
                idx = i;
            }
            i = i + 1;
        }
        if found {
            Some(idx)
        } else {
            None
        }
    }

    /// Assembles well-formedness from its parts; factored out so each part
    /// can be proved on its own.
    proof fn lemma_wf_from_parts(s: ProjectRepository)
        requires
            0 < s.next_file_id,
            paths_unique(s.entries@),
            forall|a: int|
                0 <= a < s.entries@.len() ==> 0 < (#[trigger] s.entries@[a]).record.file_id
                    < s.next_file_id,
            forall|a: int, b: int|
                0 <= a < b < s.entries@.len() ==> (#[trigger] s.entries@[a]).record.file_id != (
                #[trigger] s.entries@[b]).record.file_id,
            forall|a: int, k2: int|
                0 <= a < s.entries@.len() && 0 <= k2 < s.entries@[a].rows@.len() ==> (
                #[trigger] s.entries@[a].rows@[k2]).file_id == s.entries@[a].record.file_id,
            forall|a: int|
                0 <= a < s.entries@.len() && (#[trigger] s.entries@[a]).rows@.len() > 0 ==> s.dim
                    is Some,
            forall|a: int, k2: int|
                0 <= a < s.entries@.len() && 0 <= k2 < s.entries@[a].rows@.len() ==> (
                #[trigger] s.entries@[a].rows@[k2]).embedding@.len() == s.dim->0,
        ensures
            s.wf(),
    {
    }

    /// Replaces the stored rows of `path` with `chunks` and their
    /// `embeddings`, creating the file record on first sight; every other
    /// file's rows are untouched, and nothing of a prior version of `path`
    /// survives. The embeddings must all be of one width, the store's own
    /// once it has accepted any; the first accepted embedding fixes it.
    /// Fails exactly on a width mismatch, or when the store has run out of
    /// file ids.
    #[verifier::rlimit(100)]
    #[verifier::spinoff_prover]
    pub fn insert_file(
        &mut self,
        path: Vec<u8>,
        chunks: &Vec<Chunk>,
        embeddings: Vec<Embedding>,
    ) -> (r: Result<i64, IndexError>)
        requires
            old(self).wf(),
            chunks@.len() == embeddings@.len(),
        ensures
            final(self).wf(),
            match r {
                Ok(id) => upsert_post(
                    old(self).entries(),
                    final(self).entries(),
                    path@,
                    id,
                    spec_rows(id, chunks@, embeddings@),
                    final(self).tick(),
                ),
                Err(e) => e == IndexError::StoreFailed && final(self).entries() == old(
                    self,
                ).entries(),
            },
            r is Err <==> !dims_compatible(old(self).dimension(), embeddings@) || (!has_path(
                old(self).entries(),
                path@,
            ) && old(self).next_id() == i64::MAX),
            r is Ok ==> final(self).dimension() == spec_new_dim(
                old(self).dimension(),
                embeddings@,
            ),
            r is Err ==> final(self).dimension() == old(self).dimension(),
            paths_unique(old(self).entries()),
            paths_unique(final(self).entries()),
    {
        let ghost embs = embeddings@;
        let ghost d0 = self.dim;
        // the embeddings must share one width, the store's own once fixed
        let mut want: Option<usize> = self.dim;
        let mut k: usize = 0;
        while k < embeddings.len()
            invariant
                old(self).wf(),
                d0 == old(self).dimension(),
                k <= embeddings@.len(),
                embeddings@ == embs,
                want == (if d0 is Some {
                    d0
                } else if k > 0 {
                    Some(embs[0]@.len() as usize)
                } else {
                    None
                }),
                forall|j: int|
                    0 <= j < k ==> want is Some && (#[trigger] embs[j])@.len() == want->0,
            decreases embeddings@.len() - k,
        {
            let l = embeddings[k].dim();
            match want {
                Some(v) => {
                    if l != v {
                        proof {
                            assert(!dims_compatible(d0, embs));
                        }
                        return Err(IndexError::StoreFailed);
                    }
                },
                None => {
                    want = Some(l);
                },
            }
            k = k + 1;
        }
        proof {
            assert(dims_compatible(d0, embs));
            assert forall|a: int|
                0 <= a < old(self).entries().len() && (#[trigger] old(self).entries()[
                    a
                ]).rows@.len() > 0 implies d0 is Some by {
                assert(old(self).entries@[a].rows@.len() > 0);
            }
            assert forall|a: int, k2: int|
                0 <= a < old(self).entries().len() && 0 <= k2 < old(self).entries()[
                    a
                ].rows@.len() implies (#[trigger] old(self).entries()[a].rows@[
                    k2
                ]).embedding@.len() == d0->0 by {
                assert(old(self).entries@[a].rows@[k2] == old(self).entries()[a].rows@[k2]);
            }
        }
        let found = self.find_path(&path);
        match found {
            Some(idx) => {
                let now = if self.clock < u64::MAX {
                    self.clock + 1
                } else {
                    self.clock
                };
                self.clock = now;
                let mut entry = self.entries.remove(idx);
                let id = entry.record.file_id;
                entry.rows = build_rows(id, chunks, embeddings);
                entry.record.updated_at = now;
                self.entries.insert(idx, entry);
                self.dim = want;
                proof {
                    let pre = old(self).entries();
                    let post = self.entries@;
                    let i0 = entry_idx(pre, path@);
                    assert(pre[idx as int].record.path@ == path@);
                    assert(has_path(pre, path@));
                    assert(0 <= i0 < pre.len() && pre[i0].record.path@ == path@);
                    assert(i0 == idx) by {
                        if i0 != idx {
                            assert(paths_unique(pre));
                        }
                    }
                    assert forall|j: int|
                        0 <= j < pre.len() && j != i0 implies entry_same(
                        #[trigger] post[j],
                        pre[j],
                    ) by {
                        assert(post[j] == pre[j]);
                    }
                    assert(upsert_post(pre, post, path@, id, spec_rows(id, chunks@, embs), now));
                    lemma_upsert_paths_unique(pre, post, path@, id, spec_rows(id, chunks@, embs), now);
                    assert(self.next_file_id == old(self).next_id());
                    assert forall|a: int| 0 <= a < post.len() implies 0 < (
                    #[trigger] post[a]).record.file_id < self.next_file_id by {
                        if a != idx as int {
                            assert(entry_same(post[a], pre[a]));
                        }
                        assert(0 < pre[a].record.file_id < old(self).next_id());
                    }
                    assert forall|a: int, b: int| 0 <= a < b < post.len() implies (
                    #[trigger] post[a]).record.file_id != (#[trigger] post[b]).record.file_id by {
                        if a != idx as int {
                            assert(entry_same(post[a], pre[a]));
                        }
                        if b != idx as int {
                            assert(entry_same(post[b], pre[b]));
                        }
                        assert(pre[a].record.file_id != pre[b].record.file_id);
                    }
                    assert forall|a: int, k: int|
                        0 <= a < post.len() && 0 <= k < post[a].rows@.len() implies (
                    #[trigger] post[a].rows@[k]).file_id == post[a].record.file_id by {
                        if a != idx as int {
                            assert(entry_same(post[a], pre[a]));
                            assert(post[a].rows@ == pre[a].rows@);
                        } else {
                            assert(post[a].rows@[k] == spec_row(id, chunks@[k], embs[k]));
                        }
                    }
                    assert forall|a: int|
                        0 <= a < self.entries@.len() && (
                    #[trigger] self.entries@[a]).rows@.len() > 0 implies self.dim is Some by {
                        if a != idx as int {
                            assert(entry_same(post[a], pre[a]));
                            assert(old(self).entries()[a].rows@.len() > 0);
                        } else {
                            assert(embs[0]@.len() == want->0);
                        }
                    }
                    assert forall|a: int, k2: int|
                        0 <= a < self.entries@.len() && 0 <= k2 < self.entries@[a].rows@.len()
                        implies (#[trigger] self.entries@[a].rows@[k2]).embedding@.len()
                        == self.dim->0 by {
                        assert(self.entries@[a].rows@[k2] == post[a].rows@[k2]);
                        if a != idx as int {
                            assert(entry_same(post[a], pre[a]));
                            assert(post[a].rows@ == pre[a].rows@);
                            assert(pre[a].rows@[k2] == old(self).entries()[a].rows@[k2]);
                            assert(old(self).entries()[a].rows@.len() > 0);
                            assert(d0 is Some);
                            assert(old(self).entries()[a].rows@[k2].embedding@.len() == d0->0);
                        } else {
                            assert(post[a].rows@[k2] == spec_row(id, chunks@[k2], embs[k2]));
                            assert(embs[k2]@.len() == want->0);
                        }
                    }
                    Self::lemma_wf_from_parts(*self);
                }
                Ok(id)
            },
            None => {
                if self.next_file_id == i64::MAX {
                    return Err(IndexError::StoreFailed);
                }
                let now = if self.clock < u64::MAX {
                    self.clock + 1
                } else {
                    self.clock
                };
                self.clock = now;
                let id = self.next_file_id;
                self.next_file_id = id + 1;
                let rows = build_rows(id, chunks, embeddings);
                let record = FileRecord { file_id: id, path, created_at: now, updated_at: now };
                self.entries.push(FileEntry { record, rows });
                self.dim = want;
                proof {
                    let pre = old(self).entries();
                    let post = self.entries@;
                    assert forall|j: int| 0 <= j < pre.len() implies entry_same(
                        #[trigger] post[j],
                        pre[j],
                    ) by {
                        assert(post[j] == pre[j]);
                    }
                    assert(upsert_post(pre, post, path@, id, spec_rows(id, chunks@, embs), now));
                    lemma_upsert_paths_unique(pre, post, path@, id, spec_rows(id, chunks@, embs), now);
                    assert forall|a: int| 0 <= a < post.len() implies 0 < (
                    #[trigger] post[a]).record.file_id < self.next_file_id by {
                        if a < pre.len() {
                            assert(entry_same(post[a], pre[a]));
                            assert(0 < pre[a].record.file_id < old(self).next_id());
                        }
                    }
                    assert forall|a: int, b: int| 0 <= a < b < post.len() implies (
                    #[trigger] post[a]).record.file_id != (#[trigger] post[b]).record.file_id by {
                        if a < pre.len() {
                            assert(entry_same(post[a], pre[a]));
                            assert(0 < pre[a].record.file_id < old(self).next_id());
                        }
                        if b < pre.len() {
                            assert(entry_same(post[b], pre[b]));
                            assert(0 < pre[b].record.file_id < old(self).next_id());
                        }
                    }
                    assert forall|a: int, k: int|
                        0 <= a < post.len() && 0 <= k < post[a].rows@.len() implies (
                    #[trigger] post[a].rows@[k]).file_id == post[a].record.file_id by {
                        if a < pre.len() {
                            assert(entry_same(post[a], pre[a]));
                            assert(post[a].rows@ == pre[a].rows@);
                        } else {
                            assert(post[a].rows@[k] == spec_row(id, chunks@[k], embs[k]));
                        }
                    }
                    assert forall|a: int|
                        0 <= a < self.entries@.len() && (
                    #[trigger] self.entries@[a]).rows@.len() > 0 implies self.dim is Some by {
                        if a < pre.len() {
                            assert(entry_same(post[a], pre[a]));
                            assert(old(self).entries()[a].rows@.len() > 0);
                        } else {
                            assert(embs[0]@.len() == want->0);
                        }
                    }
                    assert forall|a: int, k2: int|
                        0 <= a < self.entries@.len() && 0 <= k2 < self.entries@[a].rows@.len()
                        implies (#[trigger] self.entries@[a].rows@[k2]).embedding@.len()
                        == self.dim->0 by {
                        assert(self.entries@[a].rows@[k2] == post[a].rows@[k2]);
                        if a < pre.len() {
                            assert(entry_same(post[a], pre[a]));
                            assert(post[a].rows@ == pre[a].rows@);
                            assert(pre[a].rows@[k2] == old(self).entries()[a].rows@[k2]);
                            assert(old(self).entries()[a].rows@.len() > 0);
                            assert(d0 is Some);
                            assert(old(self).entries()[a].rows@[k2].embedding@.len() == d0->0);
                        } else {
                            assert(post[a].rows@[k2] == spec_row(id, chunks@[k2], embs[k2]));
                            assert(embs[k2]@.len() == want->0);
                        }
                    }
                    Self::lemma_wf_from_parts(*self);
                }
                Ok(id)
            },
        }
    }

    /// The stored rows nearest to `query`: at most five results, nearest
    /// first, each naming a distinct current row, and every row left out
    /// at least as far from the query as the furthest returned.
    #[verifier::rlimit(100)]
    #[verifier::spinoff_prover]
    pub fn search(&self, query: &Embedding) -> (r: Vec<OutputChunk>)
        ensures
            r@.len() == if total_rows(self.entries()) < search_limit() {
                total_rows(self.entries())
            } else {
                search_limit()
            },
            exists|sel: Seq<(int, int)>| search_post(self.entries(), query@, r@, sel),
    {
        let ghost es = self.entries@;
        let ghost q = query@;
        // score every stored row, in entry order
        let mut cand: Vec<Cand> = Vec::new();
        let mut i: usize = 0;
        while i < self.entries.len()
            invariant
                i <= es.len(),
                es == self.entries@,
                q == query@,
                cand@.len() == total_rows_prefix(es, i as int),
                forall|k: int| 0 <= k < cand@.len() ==> cand_ok(es, q, #[trigger] cand@[k]),
                forall|k: int, k2: int|
                    0 <= k < k2 < cand@.len() ==> lex_lt(
                        pair_of(#[trigger] cand@[k]),
                        pair_of(#[trigger] cand@[k2]),
                    ),
                forall|k: int|
                    0 <= k < cand@.len() ==> lex_lt(pair_of(#[trigger] cand@[k]), (i as int, 0)),
                forall|p: (int, int)|
                    #![trigger valid_pair(es, p)]
                    valid_pair(es, p) && p.0 < i ==> cand_has(cand@, p),
            decreases es.len() - i,
        {
            let rows_len = self.entries[i].rows.len();
            let mut j: usize = 0;
            while j < rows_len
                invariant
                    i < es.len(),
                    j <= rows_len,
                    rows_len == es[i as int].rows@.len(),
                    es == self.entries@,
                    q == query@,
                    cand@.len() == total_rows_prefix(es, i as int) + j,
                    forall|k: int| 0 <= k < cand@.len() ==> cand_ok(es, q, #[trigger] cand@[k]),
                    forall|k: int, k2: int|
                        0 <= k < k2 < cand@.len() ==> lex_lt(
                            pair_of(#[trigger] cand@[k]),
                            pair_of(#[trigger] cand@[k2]),
                        ),
                    forall|k: int|
                        0 <= k < cand@.len() ==> lex_lt(
                            pair_of(#[trigger] cand@[k]),
                            (i as int, j as int),
                        ),
                    forall|p: (int, int)|
                        #![trigger valid_pair(es, p)]
                        valid_pair(es, p) && (p.0 < i || (p.0 == i && p.1 < j)) ==> cand_has(
                            cand@,
                            p,
                        ),
                decreases rows_len - j,
            {
                let d = query.distance(&self.entries[i].rows[j].embedding);
                let c = Cand { entry: i, row: j, dist: d };
                let ghost pre = cand@;
                cand.push(c);
                proof {
                    assert(cand@ == pre.push(c));
                    assert(pair_of(cand@[pre.len() as int]) == (i as int, j as int));
                    assert forall|p: (int, int)|
                        #![trigger valid_pair(es, p)]
                        valid_pair(es, p) && (p.0 < i || (p.0 == i && p.1 < j + 1)) implies cand_has(
                        cand@,
                        p,
                    ) by {
                        if p.0 == i as int && p.1 == j as int {
                            assert(pair_of(cand@[pre.len() as int]) == p);
                        } else {
                            assert(cand_has(pre, p));
                            let k = choose|k: int| 0 <= k < pre.len() && pair_of(
                                #[trigger] pre[k],
                            ) == p;
                            assert(pair_of(cand@[k]) == p);
                        }
                    }
                }
                j = j + 1;
            }
            i = i + 1;
        }
        // select the five nearest, marking each row as it is taken
        let mut used: Vec<bool> = Vec::new();
        let mut k: usize = 0;
        while k < cand.len()
            invariant
                used@.len() == k,
                k <= cand@.len(),
                forall|t: int| 0 <= t < k ==> !(#[trigger] used@[t]),
            decreases cand@.len() - k,
        {
            used.push(false);
            k = k + 1;
        }
        proof {
            lemma_count_true_none(used@);
        }
        let mut sel: Vec<Cand> = Vec::new();
        let mut sel_idx: Vec<usize> = Vec::new();
        while sel.len() < 5 && sel.len() < cand.len()
            invariant
                es == self.entries@,
                q == query@,
                used@.len() == cand@.len(),
                sel@.len() == sel_idx@.len(),
                sel@.len() <= 5,
                sel@.len() <= cand@.len(),
                count_true(used@) == sel@.len(),
                cand@.len() == total_rows(es),
                forall|k2: int| 0 <= k2 < cand@.len() ==> cand_ok(es, q, #[trigger] cand@[k2]),
                forall|k2: int, k3: int|
                    0 <= k2 < k3 < cand@.len() ==> lex_lt(
                        pair_of(#[trigger] cand@[k2]),
                        pair_of(#[trigger] cand@[k3]),
                    ),
                forall|p: (int, int)|
                    #![trigger valid_pair(es, p)]
                    valid_pair(es, p) ==> cand_has(cand@, p),
                forall|t: int|
                    0 <= t < sel@.len() ==> 0 <= #[trigger] sel_idx@[t] < cand@.len() && used@[
                        sel_idx@[t] as int
                    ] && cand@[sel_idx@[t] as int] == sel@[t],
                forall|t: int, u: int| 0 <= t < u < sel@.len() ==> sel_idx@[t] != sel_idx@[u],
                forall|k2: int|
                    0 <= k2 < used@.len() && #[trigger] used@[k2] ==> exists|t: int|
                        0 <= t < sel@.len() && sel_idx@[t] == k2,
                forall|t: int|
                    0 <= t && t + 1 < sel@.len() ==> (#[trigger] sel@[t]).dist <= sel@[t + 1].dist,
                forall|k2: int|
                    0 <= k2 < cand@.len() && !used@[k2] && sel@.len() > 0 ==> (
                    #[trigger] cand@[k2]).dist >= sel@[sel@.len() - 1].dist,
            decreases 5 - sel@.len(),
        {
            let best_opt = find_best(&cand, &used);
            match best_opt {
                Some(b) => {
                    let ghost used_pre = used@;
                    let ghost sel_pre = sel@;
                    let ghost sel_idx_pre = sel_idx@;
                    let chosen = cand[b];
                    sel.push(chosen);
                    sel_idx.push(b);
                    used.set(b, true);
                    proof {
                        lemma_count_true_update(used_pre, b as int);
                        assert(used@ == used_pre.update(b as int, true));
                        assert forall|k2: int|
                            0 <= k2 < used@.len() && #[trigger] used@[k2] implies exists|t: int|
                            0 <= t < sel@.len() && sel_idx@[t] == k2 by {
                            if k2 == b as int {
                                assert(sel_idx@[sel@.len() - 1] == k2);
                            } else {
                                assert(used_pre[k2]);
                                let t = choose|t: int|
                                    0 <= t < sel_pre.len() && #[trigger] sel_idx_pre[t] == k2;
                                assert(sel_idx@[t] == sel_idx_pre[t]);
                                assert(0 <= t < sel@.len() && sel_idx@[t] == k2);
                            }
                        }
                        if sel_pre.len() > 0 {
                            assert(chosen.dist >= sel_pre[sel_pre.len() - 1].dist);
                        }
                    }
                },
                None => {
                    proof {
                        lemma_count_true_all(used@);
                        assert(false);
                    }
                },
            }
        }
        proof {
            assert forall|t2: int| 0 <= t2 < sel@.len() implies valid_pair(
                es,
                pair_of(#[trigger] sel@[t2]),
            ) by {
                let kt = sel_idx@[t2] as int;
                assert(cand@[kt] == sel@[t2]);
                assert(cand_ok(es, q, cand@[kt]));
            }
        }
        // turn the selection into output chunks
        let mut out: Vec<OutputChunk> = Vec::new();
        let mut t: usize = 0;
        while t < sel.len()
            invariant
                es == self.entries@,
                t <= sel@.len(),
                out@.len() == t,
                forall|t2: int|
                    0 <= t2 < sel@.len() ==> valid_pair(es, pair_of(#[trigger] sel@[t2])),
                forall|t2: int|
                    0 <= t2 < t ==> output_matches(es, #[trigger] out@[t2], pair_of(sel@[t2])),
            decreases sel@.len() - t,
        {
            let c = sel[t];
            let entry = &self.entries[c.entry];
            let path = crate::text::byte_slice(&entry.record.path, 0, entry.record.path.len());
            proof {
                assert(path@ =~= entry.record.path@);
            }
            let row = &entry.rows[c.row];
            out.push(
                OutputChunk {
                    path,
                    row: IndexRange { start: row.start_row, end: row.end_row },
                    column: IndexRange { start: row.start_col, end: row.end_col },
                    byte: IndexRange { start: row.start_byte, end: row.end_byte },
                },
            );
            t = t + 1;
        }
        proof {
            let spairs = pairs_of(sel@);
            assert forall|t2: int, u: int| 0 <= t2 < u < spairs.len() implies #[trigger] spairs[t2]
                != #[trigger] spairs[u] by {
                let kt = sel_idx@[t2] as int;
                let ku = sel_idx@[u] as int;
                assert(cand@[kt] == sel@[t2]);
                assert(cand@[ku] == sel@[u]);
                if kt < ku {
                    assert(lex_lt(pair_of(cand@[kt]), pair_of(cand@[ku])));
                } else {
                    assert(lex_lt(pair_of(cand@[ku]), pair_of(cand@[kt])));
                }
            }
            assert forall|t2: int| 0 <= t2 && t2 + 1 < spairs.len() implies pair_dist(
                es,
                q,
                #[trigger] spairs[t2],
            ) <= pair_dist(es, q, spairs[t2 + 1]) by {
                let kt = sel_idx@[t2] as int;
                let ku = sel_idx@[t2 + 1] as int;
                assert(cand@[kt] == sel@[t2]);
                assert(cand@[ku] == sel@[t2 + 1]);
                assert(cand_ok(es, q, cand@[kt]));
                assert(cand_ok(es, q, cand@[ku]));
            }
            assert forall|p: (int, int)|
                #![trigger valid_pair(es, p)]
                valid_pair(es, p) && !spairs.contains(p) && spairs.len() > 0 implies pair_dist(
                es,
                q,
                p,
            ) >= pair_dist(es, q, spairs[spairs.len() - 1]) by {
                assert(cand_has(cand@, p));
                let k2 = choose|k2: int| 0 <= k2 < cand@.len() && pair_of(#[trigger] cand@[k2])
                    == p;
                if used@[k2] {
                    let t2 = choose|t2: int| 0 <= t2 < sel@.len() && #[trigger] sel_idx@[t2] == k2;
                    assert(cand@[sel_idx@[t2] as int] == sel@[t2]);
                    assert(spairs[t2] == p);
                    assert(spairs.contains(p));
                } else {
                    assert(cand@[k2].dist >= sel@[sel@.len() - 1].dist);
                    assert(cand_ok(es, q, cand@[k2]));
                    let kl = sel_idx@[sel@.len() - 1] as int;
                    assert(cand@[kl] == sel@[sel@.len() - 1]);
                    assert(cand_ok(es, q, cand@[kl]));
                    assert(spairs[spairs.len() - 1] == pair_of(sel@[sel@.len() - 1]));
                }
            }
            assert(search_post(es, q, out@, spairs));
            assert(search_post(self.entries(), query@, out@, pairs_of(sel@)));
        }
        out
    }
}

/// The rows that `chunks` and `embeddings` become under file `id`.
fn build_rows(id: i64, chunks: &Vec<Chunk>, embeddings: Vec<Embedding>) -> (rows: Vec<StoredChunk>)
    requires
        chunks@.len() == embeddings@.len(),
    ensures
        rows@ == spec_rows(id, chunks@, embeddings@),
{
    let ghost all = embeddings@;
    let mut embeddings = embeddings;
    let mut rows: Vec<StoredChunk> = Vec::new();
    let mut i: usize = 0;
    while i < chunks.len()
        invariant
            i <= chunks@.len(),
            chunks@.len() == all.len(),
            embeddings@ =~= all.subrange(i as int, all.len() as int),
            rows@.len() == i,
            forall|j: int| 0 <= j < i ==> rows@[j] == spec_row(id, chunks@[j], all[j]),
        decreases chunks@.len() - i,
    {
        let c = chunks[i];
        let e = embeddings.remove(0);
        proof {
            assert(e == all[i as int]);
        }
        rows.push(
            StoredChunk {
                file_id: id,
                start_row: c.start.row,
                start_col: c.start.column,
                end_row: c.end.row,
                end_col: c.end.column,
                start_byte: c.start_byte,
                end_byte: c.end_byte,
                embedding: e,
            },
        );
        i = i + 1;
    }
    proof {
        assert(rows@ =~= spec_rows(id, chunks@, all));
    }
    rows
}

/// After an upsert, the rows stored for the path are exactly the new rows,
/// and the rows of every other path are what they were.
pub proof fn lemma_upsert_rows(
    pre: Seq<FileEntry>,
    post: Seq<FileEntry>,
    path: Seq<u8>,
    id: i64,
    rows: Seq<StoredChunk>,
    now: u64,
)
    requires
        paths_unique(pre),
        upsert_post(pre, post, path, id, rows, now),
    ensures
        rows_for(post, path) == rows,
        forall|q: Seq<u8>| q != path ==> rows_for(post, q) == rows_for(pre, q),
{
    lemma_upsert_paths_unique(pre, post, path, id, rows, now);
    let i = if has_path(pre, path) {
        entry_idx(pre, path)
    } else {
        pre.len() as int
    };
    assert(post[i].record.path@ == path);
    assert(has_path(post, path));
    let i2 = entry_idx(post, path);
    assert(0 <= i2 < post.len() && post[i2].record.path@ == path);
    assert(i2 == i) by {
        if i2 != i {
            assert(paths_unique(post));
        }
    }
    assert(rows_for(post, path) == rows);
    assert forall|q: Seq<u8>| q != path implies rows_for(post, q) == rows_for(pre, q) by {
        if has_path(pre, q) {
            let k = entry_idx(pre, q);
            assert(0 <= k < pre.len() && pre[k].record.path@ == q);
            assert(k != i || has_path(pre, path) == false || q == path);
            assert(entry_same(post[k], pre[k]));
            assert(has_path(post, q));
            let k2 = entry_idx(post, q);
            assert(0 <= k2 < post.len() && post[k2].record.path@ == q);
            assert(k2 == k) by {
                if k2 != k {
                    assert(paths_unique(post));
                }
            }
            assert(rows_for(post, q) == pre[k].rows@);
        } else {
            assert(!has_path(post, q)) by {
                if has_path(post, q) {
                    let k2 = entry_idx(post, q);
                    assert(0 <= k2 < post.len() && post[k2].record.path@ == q);
                    if k2 == i {
                        assert(post[i].record.path@ == path);
                    } else {
                        assert(entry_same(post[k2], pre[k2]));
                        assert(pre[k2].record.path@ == q);
                        assert(has_path(pre, q));
                    }
                }
            }
        }
    }
}

/// An upsert keeps paths unique.
pub proof fn lemma_upsert_paths_unique(
    pre: Seq<FileEntry>,
    post: Seq<FileEntry>,
    path: Seq<u8>,
    id: i64,
    rows: Seq<StoredChunk>,
    now: u64,
)
    requires
        paths_unique(pre),
        upsert_post(pre, post, path, id, rows, now),
    ensures
        paths_unique(post),
{
    if has_path(pre, path) {
        let i = entry_idx(pre, path);
        assert forall|a: int, b: int| 0 <= a < b < post.len() implies (
        #[trigger] post[a]).record.path@ != (#[trigger] post[b]).record.path@ by {
            if a != i {
                assert(entry_same(post[a], pre[a]));
            }
            if b != i {
                assert(entry_same(post[b], pre[b]));
            }
            if a == i {
                assert(post[a].record.path@ == pre[i].record.path@);
            }
            if b == i {
                assert(post[b].record.path@ == pre[i].record.path@);
            }
        }
    } else {
        assert forall|a: int, b: int| 0 <= a < b < post.len() implies (
        #[trigger] post[a]).record.path@ != (#[trigger] post[b]).record.path@ by {
            if b < pre.len() {
                assert(entry_same(post[a], pre[a]));
                assert(entry_same(post[b], pre[b]));
            } else {
                assert(entry_same(post[a], pre[a]));
                assert(post[b].record.path@ == path);
                assert(pre[a].record.path@ == post[a].record.path@);
                if post[a].record.path@ == path {
                    assert(has_path(pre, path));
                }
            }
        }
    }
}

/// After interleaved updates to distinct paths, the store holds for each
/// path exactly the rows of its latest update: each upsert lands its own
/// rows and leaves the other path's untouched. A search draws only on
/// current rows, so it sees the latest content of every path.
pub proof fn lemma_latest_of_each(
    s0: Seq<FileEntry>,
    s1: Seq<FileEntry>,
    s2: Seq<FileEntry>,
    p1: Seq<u8>,
    p2: Seq<u8>,
    id1: i64,
    id2: i64,
    rows1: Seq<StoredChunk>,
    rows2: Seq<StoredChunk>,
    t1: u64,
    t2: u64,
)
    requires
        paths_unique(s0),
        p1 != p2,
        upsert_post(s0, s1, p1, id1, rows1, t1),
        upsert_post(s1, s2, p2, id2, rows2, t2),
    ensures
        rows_for(s2, p1) == rows1,
        rows_for(s2, p2) == rows2,
{
    lemma_upsert_paths_unique(s0, s1, p1, id1, rows1, t1);
    lemma_upsert_rows(s0, s1, p1, id1, rows1, t1);
    lemma_upsert_rows(s1, s2, p2, id2, rows2, t2);
}

/// A chain of upserts: `states` runs from the initial entries through the
/// result of each update in turn, step `t` upserting `paths[t]`.
pub open spec fn upsert_chain(
    states: Seq<Seq<FileEntry>>,
    paths: Seq<Seq<u8>>,
    ids: Seq<i64>,
    rowss: Seq<Seq<StoredChunk>>,
    ticks: Seq<u64>,
) -> bool {
    &&& states.len() == paths.len() + 1
    &&& ids.len() == paths.len()
    &&& rowss.len() == paths.len()
    &&& ticks.len() == paths.len()
    &&& forall|t: int|
        0 <= t < paths.len() ==> upsert_post(
            states[t],
            states[t + 1],
            #[trigger] paths[t],
            ids[t],
            rowss[t],
            ticks[t],
        )
}

/// Uniqueness of paths survives a chain of upserts.
proof fn lemma_chain_paths_unique(
    states: Seq<Seq<FileEntry>>,
    paths: Seq<Seq<u8>>,
    ids: Seq<i64>,
    rowss: Seq<Seq<StoredChunk>>,
    ticks: Seq<u64>,
    k: int,
)
    requires
        paths_unique(states[0]),
        upsert_chain(states, paths, ids, rowss, ticks),
        0 <= k < states.len(),
    ensures
        paths_unique(states[k]),
    decreases k,
{
    if k > 0 {
        lemma_chain_paths_unique(states, paths, ids, rowss, ticks, k - 1);
        lemma_upsert_paths_unique(
            states[k - 1],
            states[k],
            paths[k - 1],
            ids[k - 1],
            rowss[k - 1],
            ticks[k - 1],
        );
    }
}

/// After any number of interleaved updates to pairwise distinct paths, the
/// store holds for every one of those paths exactly the rows of its own
/// update: a search that follows draws only on each path's latest rows.
pub proof fn lemma_latest_of_all(
    states: Seq<Seq<FileEntry>>,
    paths: Seq<Seq<u8>>,
    ids: Seq<i64>,
    rowss: Seq<Seq<StoredChunk>>,
    ticks: Seq<u64>,
    t: int,
)
    requires
        paths_unique(states[0]),
        upsert_chain(states, paths, ids, rowss, ticks),
        forall|a: int, b: int| 0 <= a < b < paths.len() ==> paths[a] != paths[b],
        0 <= t < paths.len(),
    ensures
        rows_for(states[states.len() - 1], paths[t]) == rowss[t],
    decreases paths.len(),
{
    let n = paths.len() as int;
    lemma_chain_paths_unique(states, paths, ids, rowss, ticks, n - 1);
    if t == n - 1 {
        lemma_upsert_rows(
            states[n - 1],
            states[n],
            paths[n - 1],
            ids[n - 1],
            rowss[n - 1],
            ticks[n - 1],
        );
    } else {
        let states2 = states.take(n);
        let paths2 = paths.take(n - 1);
        let ids2 = ids.take(n - 1);
        let rowss2 = rowss.take(n - 1);
        let ticks2 = ticks.take(n - 1);
        assert(upsert_chain(states2, paths2, ids2, rowss2, ticks2)) by {
            assert forall|u: int| 0 <= u < paths2.len() implies upsert_post(
                states2[u],
                states2[u + 1],
                #[trigger] paths2[u],
                ids2[u],
                rowss2[u],
                ticks2[u],
            ) by {
                assert(paths2[u] == paths[u]);
                assert(states2[u] == states[u] && states2[u + 1] == states[u + 1]);
                assert(ids2[u] == ids[u] && rowss2[u] == rowss[u] && ticks2[u] == ticks[u]);
                assert(upsert_post(states[u], states[u + 1], paths[u], ids[u], rowss[u], ticks[u]));
            }
        }
        lemma_latest_of_all(states2, paths2, ids2, rowss2, ticks2, t);
        assert(states2[states2.len() - 1] == states[n - 1]);
        assert(paths2[t] == paths[t]);
        lemma_upsert_rows(
            states[n - 1],
            states[n],
            paths[n - 1],
            ids[n - 1],
            rowss[n - 1],
            ticks[n - 1],
        );
        assert(paths[t] != paths[n - 1]);
    }
}

/// Updating a file twice with the same chunks and embeddings leaves every
/// entry as the first update left it, apart from the file's update stamp.
pub proof fn lemma_idempotent_update(
    s0: Seq<FileEntry>,
    s1: Seq<FileEntry>,
    s2: Seq<FileEntry>,
    path: Seq<u8>,
    id1: i64,
    id2: i64,
    rows: Seq<StoredChunk>,
    t1: u64,
    t2: u64,
)
    requires
        paths_unique(s0),
        upsert_post(s0, s1, path, id1, rows, t1),
        upsert_post(s1, s2, path, id2, rows, t2),
    ensures
        id2 == id1,
        s2.len() == s1.len(),
        forall|j: int|
            0 <= j < s1.len() ==> {
                &&& (#[trigger] s2[j]).record.file_id == s1[j].record.file_id
                &&& s2[j].record.path@ == s1[j].record.path@
                &&& s2[j].record.created_at == s1[j].record.created_at
                &&& s2[j].rows@ == s1[j].rows@
            },
{
    lemma_upsert_paths_unique(s0, s1, path, id1, rows, t1);
    let i = if has_path(s0, path) {
        entry_idx(s0, path)
    } else {
        s0.len() as int
    };
    assert(s1[i].record.path@ == path);
    assert(has_path(s1, path));
    let i2 = entry_idx(s1, path);
    assert(0 <= i2 < s1.len() && s1[i2].record.path@ == path);
    assert(i2 == i) by {
        if i2 != i {
            assert(paths_unique(s1));
        }
    }
    assert(id2 == s1[i].record.file_id);
    assert(id2 == id1);
    assert forall|j: int| 0 <= j < s1.len() implies {
        &&& (#[trigger] s2[j]).record.file_id == s1[j].record.file_id
        &&& s2[j].record.path@ == s1[j].record.path@
        &&& s2[j].record.created_at == s1[j].record.created_at
        &&& s2[j].rows@ == s1[j].rows@
    } by {
        if j != i2 {
            assert(entry_same(s2[j], s1[j]));
        } else {
            assert(s2[j].rows@ == rows);
            assert(s1[j].rows@ == rows);
        }
    }
}

} // verus!
