//! Splitting a parse tree into size-bounded, syntactically aligned chunks.
//!
//! The splitter walks the tree depth-first, greedily merging sibling spans
//! into an accumulator until the next sibling would push its character count
//! past the limit, descending into oversize children so that chunk boundaries
//! stay aligned with syntactic boundaries. A chunk is anchored to the end of
//! the previously visited sibling, so the whitespace and comments between two
//! declarations travel with the following declaration.

use vstd::prelude::*;
use crate::text::{char_count_range, count_chars, lemma_char_count_mono, lemma_char_count_split};

verus! {

/// A zero-based (row, column) position, ordered lexicographically.
#[derive(Clone, Copy, Debug, PartialEq, Eq, Structural)]
pub struct TextPosition {
    pub row: usize,
    pub column: usize,
}

/// Lexicographic order on positions.
pub open spec fn pos_le(a: TextPosition, b: TextPosition) -> bool {
    a.row < b.row || (a.row == b.row && a.column <= b.column)
}

/// The lexicographically smaller of two positions.
pub open spec fn spec_pos_min(a: TextPosition, b: TextPosition) -> TextPosition {
    if pos_le(a, b) {
        a
    } else {
        b
    }
}

/// The lexicographically larger of two positions.
pub open spec fn spec_pos_max(a: TextPosition, b: TextPosition) -> TextPosition {
    if pos_le(a, b) {
        b
    } else {
        a
    }
}

impl TextPosition {
    /// The smaller of `self` and `other`.
    pub fn min(self, other: TextPosition) -> (r: TextPosition)
        ensures
            r == spec_pos_min(self, other),
    {
        if self.row < other.row {
            self
        } else if other.row < self.row {
            other
        } else if self.column <= other.column {
            self
        } else {
            other
        }
    }

    /// The larger of `self` and `other`.
    pub fn max(self, other: TextPosition) -> (r: TextPosition)
        ensures
            r == spec_pos_max(self, other),
    {
        if self.row < other.row {
            other
        } else if other.row < self.row {
            self
        } else if self.column <= other.column {
            other
        } else {
            self
        }
    }
}

/// A contiguous span of source text: the unit of embedding and of result.
/// `start_byte..end_byte` indexes the source buffer; `start` and `end` are
/// the corresponding row/column positions. The text of a chunk is always
/// `source[start_byte..end_byte]`, extracted on demand.
#[derive(Clone, Copy, Debug, PartialEq, Eq, Structural)]
pub struct Chunk {
    pub start_byte: usize,
    pub end_byte: usize,
    pub start: TextPosition,
    pub end: TextPosition,
}

impl Chunk {
    /// Well-formedness: the span does not run backwards, in byte
    /// coordinates nor in row/column coordinates.
    pub open spec fn wf(self) -> bool {
        self.start_byte <= self.end_byte && pos_le(self.start, self.end)
    }

    /// The empty chunk at the origin, the seed of a traversal.
    pub fn empty() -> (r: Chunk)
        ensures
            r.start_byte == 0,
            r.end_byte == 0,
            r.wf(),
    {
        Chunk {
            start_byte: 0,
            end_byte: 0,
            start: TextPosition { row: 0, column: 0 },
            end: TextPosition { row: 0, column: 0 },
        }
    }

    /// The chunk covering exactly one node's span.
    pub fn from_node(node: &SynNode) -> (r: Chunk)
        requires
            node.start_byte <= node.end_byte,
            pos_le(node.start, node.end),
        ensures
            r.start_byte == node.start_byte,
            r.end_byte == node.end_byte,
            r.start == node.start,
            r.end == node.end,
            r.wf(),
    {
        Chunk {
            start_byte: node.start_byte,
            end_byte: node.end_byte,
            start: node.start,
            end: node.end,
        }
    }

    /// True of a chunk that covers no bytes.
    pub fn is_empty(&self) -> (r: bool)
        ensures
            r <==> self.start_byte == self.end_byte,
    {
        self.start_byte == self.end_byte
    }

    /// Joins two chunks into one running from the start of `self` to the
    /// end of `other`. The row/column positions delimit the joined span:
    /// it begins where `self` begins and ends where `other` ends (kept
    /// ordered even if the two chunks' positions are not). Preserves
    /// `start <= end` in both coordinates.
    pub fn merge(&self, other: Chunk) -> (r: Chunk)
        requires
            self.wf(),
            other.wf(),
            self.start_byte <= other.end_byte,
        ensures
            r.start_byte == self.start_byte,
            r.end_byte == other.end_byte,
            r.start == self.start,
            r.end == spec_pos_max(self.start, other.end),
            r.wf(),
    {
        Chunk {
            start_byte: self.start_byte,
            end_byte: other.end_byte,
            start: self.start,
            end: self.start.max(other.end),
        }
    }

    /// The span running from the end of `self` to the end of `other`:
    /// anchoring a new chunk to the end of the previous sibling keeps the
    /// text between the two spans. The row/column positions delimit the
    /// emitted span: it begins where `self` ends and ends where `other`
    /// ends (kept ordered even if the two chunks' positions are not).
    /// Preserves `start <= end` in both coordinates.
    pub fn merge_end(&self, other: Chunk) -> (r: Chunk)
        requires
            self.wf(),
            other.wf(),
            self.end_byte <= other.end_byte,
        ensures
            r.start_byte == self.end_byte,
            r.end_byte == other.end_byte,
            r.start == self.end,
            r.end == spec_pos_max(self.end, other.end),
            r.wf(),
    {
        Chunk {
            start_byte: self.end_byte,
            end_byte: other.end_byte,
            start: self.end,
            end: self.end.max(other.end),
        }
    }
}

/// A node of the modelled parse tree: a byte span, the matching row/column
/// span, and the child nodes in source order.
pub struct SynNode {
    pub start_byte: usize,
    pub end_byte: usize,
    pub start: TextPosition,
    pub end: TextPosition,
    pub children: Vec<SynNode>,
}

/// Well-formedness of a parse tree: every span runs forward, children lie
/// inside their parent's span, and consecutive children do not overlap.
pub open spec fn node_wf(n: SynNode) -> bool
    decreases n,
{
    &&& n.start_byte <= n.end_byte
    &&& pos_le(n.start, n.end)
    &&& forall|i: int|
        0 <= i < n.children@.len() ==> n.start_byte <= (#[trigger] n.children@[i]).start_byte
            && n.children@[i].end_byte <= n.end_byte
    &&& forall|i: int|
        0 <= i && i + 1 < n.children@.len() ==> (#[trigger] n.children@[i]).end_byte <= n.children@[i
            + 1].start_byte
    &&& forall|i: int| 0 <= i < n.children@.len() ==> node_wf(#[trigger] n.children@[i])
}

/// A gap-free tree: the children of every node with children tile its span
/// exactly, with no unclaimed bytes before, between or after them.
pub open spec fn node_tiled(n: SynNode) -> bool
    decreases n,
{
    &&& n.children@.len() > 0 ==> {
        &&& n.children@[0].start_byte == n.start_byte
        &&& n.children@[n.children@.len() - 1].end_byte == n.end_byte
    }
    &&& forall|i: int|
        0 <= i && i + 1 < n.children@.len() ==> (#[trigger] n.children@[i]).end_byte == n.children@[i
            + 1].start_byte
    &&& forall|i: int| 0 <= i < n.children@.len() ==> node_tiled(#[trigger] n.children@[i])
}

/// True when `[start, end)` is the span of some childless node of `n`'s
/// subtree: a leaf that the splitter cannot divide further.
pub open spec fn leaf_span_in(n: SynNode, start: int, end: int) -> bool
    decreases n,
{
    if n.children@.len() == 0 {
        n.start_byte == start && n.end_byte == end
    } else {
        exists|i: int|
            0 <= i < n.children@.len() && leaf_span_in(#[trigger] n.children@[i], start, end)
    }
}

/// Every chunk of a well-formed emission: a forward, non-empty span lying
/// between `lo` and `hi`.
pub open spec fn chunk_span_wf(c: Chunk, lo: int, hi: int) -> bool {
    c.wf() && lo <= c.start_byte && c.start_byte < c.end_byte && c.end_byte <= hi
}

/// The chunks of `cs` from index `base` on are well-formed spans within
/// `[lo, hi]`, strictly ordered by start and pairwise non-overlapping.
pub open spec fn chunks_emitted_ok(cs: Seq<Chunk>, base: int, lo: int, hi: int) -> bool {
    &&& forall|j: int| base <= j < cs.len() ==> chunk_span_wf(#[trigger] cs[j], lo, hi)
    &&& forall|j: int|
        #![trigger cs[j], cs[j + 1]]
        base <= j && j + 1 < cs.len() ==> cs[j].end_byte <= cs[j + 1].start_byte
}

/// The byte position after the last chunk emitted beyond `base`, or `lo`
/// when none has been.
pub open spec fn emit_frontier(cs: Seq<Chunk>, base: int, lo: int) -> int {
    if cs.len() <= base {
        lo
    } else {
        cs[cs.len() - 1].end_byte as int
    }
}

/// The chunks of `cs` from index `base` on tile `[lo, hi]` exactly: the
/// first starts at `lo`, consecutive chunks abut, the last ends at `hi`;
/// when nothing was emitted, the region is empty.
pub open spec fn chunks_tile(cs: Seq<Chunk>, base: int, lo: int, hi: int) -> bool {
    &&& cs.len() > base ==> cs[base].start_byte == lo
    &&& forall|j: int|
        #![trigger cs[j], cs[j + 1]]
        base <= j && j + 1 < cs.len() ==> cs[j].end_byte == cs[j + 1].start_byte
    &&& if cs.len() > base {
        cs[cs.len() - 1].end_byte == hi
    } else {
        lo == hi
    }
}

/// Some chunk of `cs` beyond `base` spans exactly `[s, e)`.
pub open spec fn span_emitted(cs: Seq<Chunk>, base: int, s: int, e: int) -> bool {
    exists|j: int| base <= j < cs.len() && (#[trigger] cs[j]).start_byte == s && cs[j].end_byte == e
}

/// Every childless subtree of `n` whose span exceeds `max` characters
/// appears in the emission as one chunk of exactly its span.
pub open spec fn oversize_leaves_emitted(
    src: Seq<u8>,
    n: SynNode,
    cs: Seq<Chunk>,
    base: int,
    max: int,
) -> bool {
    forall|s: int, e: int|
        #![trigger leaf_span_in(n, s, e)]
        leaf_span_in(n, s, e) && char_count_range(src, s, e) > max ==> span_emitted(cs, base, s, e)
}

/// The span of a childless subtree lies within its tree's span.
pub proof fn lemma_leaf_span_bounds(n: SynNode, s: int, e: int)
    requires
        node_wf(n),
        leaf_span_in(n, s, e),
    ensures
        n.start_byte <= s <= e <= n.end_byte,
    decreases n,
{
    if n.children@.len() > 0 {
        let i = choose|i: int|
            0 <= i < n.children@.len() && leaf_span_in(#[trigger] n.children@[i], s, e);
        lemma_leaf_span_bounds(n.children@[i], s, e);
    }
}

/// Appending a chunk that starts at the tiled region's end extends the
/// tiling to the chunk's end.
proof fn lemma_tile_push(pre: Seq<Chunk>, c: Chunk, base: int, lo: int)
    requires
        0 <= base <= pre.len(),
        chunks_tile(pre, base, lo, c.start_byte as int),
    ensures
        chunks_tile(pre.push(c), base, lo, c.end_byte as int),
{
    let cs = pre.push(c);
    assert forall|j: int|
        #![trigger cs[j], cs[j + 1]]
        base <= j && j + 1 < cs.len() implies cs[j].end_byte == cs[j + 1].start_byte by {
        if j + 1 < pre.len() {
            assert(cs[j] == pre[j]);
            assert(cs[j + 1] == pre[j + 1]);
        } else {
            assert(cs[j] == pre[pre.len() - 1]);
            assert(cs[j + 1] == c);
        }
    }
    if pre.len() > base {
        assert(cs[base] == pre[base]);
    }
}

/// A tiled region extended past its end by a second tiled region tiles the
/// joined range.
proof fn lemma_tile_concat(pre: Seq<Chunk>, post: Seq<Chunk>, base: int, lo: int, m: int, hi: int)
    requires
        0 <= base <= pre.len() <= post.len(),
        post.subrange(0, pre.len() as int) == pre,
        chunks_tile(pre, base, lo, m),
        chunks_tile(post, pre.len() as int, m, hi),
    ensures
        chunks_tile(post, base, lo, hi),
{
    assert forall|j: int| 0 <= j < pre.len() implies post[j] == pre[j] by {
        assert(post.subrange(0, pre.len() as int)[j] == post[j]);
    }
    assert forall|j: int|
        #![trigger post[j], post[j + 1]]
        base <= j && j + 1 < post.len() implies post[j].end_byte == post[j + 1].start_byte by {
        if j + 1 < pre.len() {
            assert(post[j] == pre[j]);
            assert(post[j + 1] == pre[j + 1]);
        } else if j + 1 == pre.len() {
            assert(post[j] == pre[j]);
            assert(post[j].end_byte == m);
            assert(post[j + 1].start_byte == m);
        }
    }
    if post.len() == pre.len() {
        assert(post =~= pre);
    } else if pre.len() > base {
        assert(post[base] == pre[base]);
    }
}

/// A span once emitted stays emitted when the emission grows at its end.
proof fn lemma_span_emitted_extend(pre: Seq<Chunk>, post: Seq<Chunk>, base: int, s: int, e: int)
    requires
        0 <= base,
        pre.len() <= post.len(),
        post.subrange(0, pre.len() as int) == pre,
        span_emitted(pre, base, s, e),
    ensures
        span_emitted(post, base, s, e),
{
    let j = choose|j: int| base <= j < pre.len() && (#[trigger] pre[j]).start_byte == s
        && pre[j].end_byte == e;
    assert(post.subrange(0, pre.len() as int)[j] == post[j]);
    assert(post[j] == pre[j]);
}

/// The size bound on an emitted chunk: at most `max` characters, except for
/// the span of a single indivisible leaf, which is emitted whole.
pub open spec fn chunk_sized_ok(src: Seq<u8>, n: SynNode, c: Chunk, max: int) -> bool {
    char_count_range(src, c.start_byte as int, c.end_byte as int) <= max || leaf_span_in(
        n,
        c.start_byte as int,
        c.end_byte as int,
    )
}

/// Appending a well-formed span that starts at or beyond the emission
/// frontier keeps an emission well-formed and moves the frontier to its end.
proof fn lemma_emit_push(pre: Seq<Chunk>, c: Chunk, base: int, lo: int, hi: int)
    requires
        0 <= base <= pre.len(),
        chunks_emitted_ok(pre, base, lo, hi),
        chunk_span_wf(c, lo, hi),
        emit_frontier(pre, base, lo) <= c.start_byte,
    ensures
        chunks_emitted_ok(pre.push(c), base, lo, hi),
        emit_frontier(pre.push(c), base, lo) == c.end_byte,
        pre.push(c).subrange(0, base) == pre.subrange(0, base),
{
    let cs = pre.push(c);
    assert forall|j: int| base <= j < cs.len() implies chunk_span_wf(#[trigger] cs[j], lo, hi) by {
        if j < pre.len() {
            assert(cs[j] == pre[j]);
        }
    }
    assert forall|j: int|
        #![trigger cs[j], cs[j + 1]]
        base <= j && j + 1 < cs.len() implies cs[j].end_byte <= cs[j + 1].start_byte by {
        if j + 1 < pre.len() {
            assert(cs[j] == pre[j]);
            assert(cs[j + 1] == pre[j + 1]);
        } else {
            assert(cs[j] == pre[pre.len() - 1]);
            assert(cs[j + 1] == c);
        }
    }
    assert(cs.subrange(0, base) =~= pre.subrange(0, base));
}

/// An emission extended, beyond its end, by a second well-formed emission
/// that lies past the first one's frontier is well-formed as a whole.
proof fn lemma_emit_concat(
    pre: Seq<Chunk>,
    post: Seq<Chunk>,
    base: int,
    lo: int,
    hi: int,
    lo2: int,
    hi2: int,
)
    requires
        0 <= base <= pre.len() <= post.len(),
        post.subrange(0, pre.len() as int) == pre,
        chunks_emitted_ok(pre, base, lo, hi),
        chunks_emitted_ok(post, pre.len() as int, lo2, hi2),
        lo <= lo2,
        hi2 <= hi,
        emit_frontier(pre, base, lo) <= lo2,
        lo2 <= hi2,
    ensures
        chunks_emitted_ok(post, base, lo, hi),
        emit_frontier(post, base, lo) <= hi2,
        post.subrange(0, base) == pre.subrange(0, base),
{
    assert forall|j: int| 0 <= j < pre.len() implies post[j] == pre[j] by {
        assert(post.subrange(0, pre.len() as int)[j] == post[j]);
    }
    assert forall|j: int| base <= j < post.len() implies chunk_span_wf(
        #[trigger] post[j],
        lo,
        hi,
    ) by {
        if j < pre.len() {
            assert(post[j] == pre[j]);
        } else {
            assert(chunk_span_wf(post[j], lo2, hi2));
        }
    }
    assert forall|j: int|
        #![trigger post[j], post[j + 1]]
        base <= j && j + 1 < post.len() implies post[j].end_byte <= post[j + 1].start_byte by {
        if j + 1 < pre.len() {
            assert(post[j] == pre[j]);
            assert(post[j + 1] == pre[j + 1]);
        } else if j + 1 == pre.len() {
            assert(post[j] == pre[j]);
            assert(post[j].end_byte == emit_frontier(pre, base, lo));
            assert(chunk_span_wf(post[j + 1], lo2, hi2));
        } else {
            assert(chunk_span_wf(post[j], lo2, hi2));
        }
    }
    if post.len() > pre.len() {
        assert(chunk_span_wf(post[post.len() - 1], lo2, hi2));
    } else {
        assert(post =~= pre);
    }
    assert(post.subrange(0, base) =~= pre.subrange(0, base));
}

/// Splits a parse tree over a source buffer into chunks of at most
/// `max_chunk_size` characters.
pub struct CodeSplitter {
    pub max_chunk_size: usize,
}

impl CodeSplitter {
    /// A splitter with the given character limit per chunk.
    pub fn new(max_chunk_size: usize) -> (r: Self)
        ensures
            r.max_chunk_size == max_chunk_size,
    {
        CodeSplitter { max_chunk_size }
    }

    /// The ordered chunks of `tree` over `source`.
    ///
    /// Every chunk is a non-empty forward span inside the tree's span, and
    /// the chunks are strictly ordered with no overlap. On a gap-free tree
    /// with children, starting at byte 0, the output is pinned further:
    /// the chunks tile `[0, tree.end_byte)` exactly (so nothing of the
    /// tree is dropped), every chunk holds at most `max_chunk_size`
    /// characters unless it is the span of a single indivisible leaf, and
    /// every indivisible leaf over the limit appears as one chunk of
    /// exactly its span.
    pub fn chunks(&self, tree: &SynNode, source: &Vec<u8>) -> (r: Vec<Chunk>)
        requires
            node_wf(*tree),
            tree.end_byte <= source.len(),
        ensures
            chunks_emitted_ok(r@, 0, 0, tree.end_byte as int),
            (node_tiled(*tree) && tree.start_byte == 0) ==> forall|j: int|
                0 <= j < r@.len() ==> chunk_sized_ok(
                    source@,
                    *tree,
                    #[trigger] r@[j],
                    self.max_chunk_size as int,
                ),
            (node_tiled(*tree) && tree.start_byte == 0 && tree.children@.len() > 0) ==> chunks_tile(
                r@,
                0,
                0,
                tree.end_byte as int,
            ),
            (node_tiled(*tree) && tree.start_byte == 0 && tree.children@.len() > 0)
                ==> oversize_leaves_emitted(source@, *tree, r@, 0, self.max_chunk_size as int),
    {
        let mut chunks: Vec<Chunk> = Vec::new();
        let last = Chunk::empty();
        self.process_chunks(source, &mut chunks, last, tree);
        chunks
    }

    /// The character count of the byte range `[start, end)` of the source.
    fn chunk_size(&self, source: &Vec<u8>, start: usize, end: usize) -> (n: usize)
        requires
            start <= end <= source.len(),
        ensures
            n == char_count_range(source@, start as int, end as int),
    {
        count_chars(source, start, end)
    }

    /// Walks the children of `node`, accumulating sibling spans into
    /// `current` and flushing it to `chunks` whenever the next sibling
    /// would exceed the limit; descends into oversize children, carrying
    /// the previous sibling in so that the descent resumes with context.
    fn process_chunks(
        &self,
        source: &Vec<u8>,
        chunks: &mut Vec<Chunk>,
        last: Chunk,
        node: &SynNode,
    )
        requires
            node_wf(*node),
            node.end_byte <= source.len(),
            last.wf(),
            last.end_byte <= node.start_byte,
        ensures
            old(chunks)@.len() <= final(chunks)@.len(),
            final(chunks)@.subrange(0, old(chunks)@.len() as int) == old(chunks)@,
            chunks_emitted_ok(
                final(chunks)@,
                old(chunks)@.len() as int,
                last.end_byte as int,
                node.end_byte as int,
            ),
            emit_frontier(final(chunks)@, old(chunks)@.len() as int, last.end_byte as int)
                <= node.end_byte,
            (node_tiled(*node) && last.end_byte == node.start_byte) ==> forall|j: int|
                old(chunks)@.len() <= j < final(chunks)@.len() ==> chunk_sized_ok(
                    source@,
                    *node,
                    #[trigger] final(chunks)@[j],
                    self.max_chunk_size as int,
                ),
            (node_tiled(*node) && last.end_byte == node.start_byte && node.children@.len() > 0)
                ==> chunks_tile(
                final(chunks)@,
                old(chunks)@.len() as int,
                last.end_byte as int,
                node.end_byte as int,
            ),
            (node_tiled(*node) && last.end_byte == node.start_byte && node.children@.len() > 0)
                ==> oversize_leaves_emitted(
                source@,
                *node,
                final(chunks)@,
                old(chunks)@.len() as int,
                self.max_chunk_size as int,
            ),
        decreases *node,
    {
        let ghost base = chunks@.len() as int;
        let ghost tiled = node_tiled(*node) && last.end_byte == node.start_byte;
        let mut current: Option<Chunk> = None;
        let mut prev: Chunk = last;
        let mut i: usize = 0;
        while i < node.children.len()
            invariant
                node_wf(*node),
                node.end_byte <= source.len(),
                last.wf(),
                last.end_byte <= node.start_byte,
                0 <= i <= node.children@.len(),
                base <= chunks@.len(),
                chunks@.subrange(0, base) == old(chunks)@,
                base == old(chunks)@.len(),
                tiled == (node_tiled(*node) && last.end_byte == node.start_byte),
                // the previous sibling (or the carried-in chunk before any sibling)
                prev.wf(),
                last.end_byte <= prev.end_byte,
                i < node.children@.len() ==> prev.end_byte <= node.children@[i as int].start_byte,
                i == node.children@.len() ==> prev.end_byte <= node.end_byte,
                i > 0 ==> prev.end_byte == node.children@[i - 1].end_byte,
                // what has been emitted so far
                chunks_emitted_ok(chunks@, base, last.end_byte as int, node.end_byte as int),
                emit_frontier(chunks@, base, last.end_byte as int) <= match current {
                    Some(c) => c.start_byte as int,
                    None => prev.end_byte as int,
                },
                tiled ==> forall|j: int|
                    base <= j < chunks@.len() ==> chunk_sized_ok(
                        source@,
                        *node,
                        #[trigger] chunks@[j],
                        self.max_chunk_size as int,
                    ),
                // the accumulator
                current matches Some(c) ==> {
                    &&& c.wf()
                    &&& last.end_byte <= c.start_byte
                    &&& c.end_byte == prev.end_byte
                },
                tiled ==> (current matches Some(c) ==> char_count_range(
                    source@,
                    c.start_byte as int,
                    c.end_byte as int,
                ) <= self.max_chunk_size as int),
                // adjacency under tiling
                tiled && i < node.children@.len() ==> prev.end_byte == node.children@[
                    i as int
                ].start_byte,
                // under tiling the emission tiles everything up to the
                // accumulator (or the previous sibling's end)
                tiled ==> chunks_tile(
                    chunks@,
                    base,
                    last.end_byte as int,
                    match current {
                        Some(c) => c.start_byte as int,
                        None => prev.end_byte as int,
                    },
                ),
                // every oversize leaf of a visited child has been emitted
                tiled ==> forall|i2: int, s: int, e: int|
                    0 <= i2 < i && #[trigger] leaf_span_in(node.children@[i2], s, e)
                        && char_count_range(source@, s, e) > self.max_chunk_size ==> span_emitted(
                        chunks@,
                        base,
                        s,
                        e,
                    ),
            decreases node.children@.len() - i,
        {
            let child = &node.children[i];
            let ghost cs_entry = chunks@;
            proof {
                assert(node_wf(node.children@[i as int]));
                assert(node.children@[i as int].end_byte <= node.end_byte);
                if tiled {
                    assert(node_tiled(node.children@[i as int]));
                }
            }
            let child_size = self.chunk_size(source, child.start_byte, child.end_byte);
            if child_size > self.max_chunk_size {
                // the child alone is over the limit: flush, then descend
                match current {
                    Some(c) => {
                        if !c.is_empty() {
                            proof {
                                lemma_emit_push(
                                    chunks@,
                                    c,
                                    base,
                                    last.end_byte as int,
                                    node.end_byte as int,
                                );
                                if tiled {
                                    lemma_tile_push(chunks@, c, base, last.end_byte as int);
                                }
                            }
                            chunks.push(c);
                        }
                    },
                    None => {},
                }
                proof {
                    if tiled {
                        assert(chunks_tile(chunks@, base, last.end_byte as int, prev.end_byte as int));
                        assert(chunks@.subrange(0, cs_entry.len() as int) =~= cs_entry);
                    }
                }
                current = None;
                if child.children.len() == 0 {
                    // an indivisible leaf: emitted whole
                    let leaf = Chunk::from_node(child);
                    let ghost pre_leaf = chunks@;
                    proof {
                        if leaf.start_byte == leaf.end_byte {
                            assert(source@.subrange(
                                leaf.start_byte as int,
                                leaf.end_byte as int,
                            ) =~= Seq::<u8>::empty());
                        }
                        assert(leaf_span_in(
                            node.children@[i as int],
                            leaf.start_byte as int,
                            leaf.end_byte as int,
                        ));
                        assert(leaf_span_in(*node, leaf.start_byte as int, leaf.end_byte as int));
                        lemma_emit_push(
                            chunks@,
                            leaf,
                            base,
                            last.end_byte as int,
                            node.end_byte as int,
                        );
                        if tiled {
                            lemma_tile_push(chunks@, leaf, base, last.end_byte as int);
                        }
                    }
                    chunks.push(leaf);
                    proof {
                        if tiled {
                            assert(chunks@.subrange(0, pre_leaf.len() as int) =~= pre_leaf);
                            assert(chunks@[chunks@.len() - 1] == leaf);
                            assert forall|i2: int, s: int, e: int|
                                0 <= i2 < i + 1 && #[trigger] leaf_span_in(
                                    node.children@[i2],
                                    s,
                                    e,
                                ) && char_count_range(source@, s, e)
                                > self.max_chunk_size implies span_emitted(
                                chunks@,
                                base,
                                s,
                                e,
                            ) by {
                                if i2 == i as int {
                                    assert(s == leaf.start_byte && e == leaf.end_byte);
                                } else {
                                    assert(span_emitted(cs_entry, base, s, e));
                                    assert(pre_leaf.subrange(0, cs_entry.len() as int)
                                        =~= cs_entry);
                                    lemma_span_emitted_extend(cs_entry, pre_leaf, base, s, e);
                                    lemma_span_emitted_extend(pre_leaf, chunks@, base, s, e);
                                }
                            }
                        }
                    }
                } else {
                    let ghost pre = chunks@;
                    self.process_chunks(source, chunks, prev, child);
                    proof {
                        lemma_emit_concat(
                            pre,
                            chunks@,
                            base,
                            last.end_byte as int,
                            node.end_byte as int,
                            prev.end_byte as int,
                            node.children@[i as int].end_byte as int,
                        );
                        if tiled {
                            lemma_tile_concat(
                                pre,
                                chunks@,
                                base,
                                last.end_byte as int,
                                prev.end_byte as int,
                                node.children@[i as int].end_byte as int,
                            );
                            assert forall|i2: int, s: int, e: int|
                                0 <= i2 < i + 1 && #[trigger] leaf_span_in(
                                    node.children@[i2],
                                    s,
                                    e,
                                ) && char_count_range(source@, s, e)
                                > self.max_chunk_size implies span_emitted(
                                chunks@,
                                base,
                                s,
                                e,
                            ) by {
                                if i2 == i as int {
                                    assert(oversize_leaves_emitted(
                                        source@,
                                        node.children@[i as int],
                                        chunks@,
                                        pre.len() as int,
                                        self.max_chunk_size as int,
                                    ));
                                    assert(span_emitted(chunks@, pre.len() as int, s, e));
                                    let j = choose|j: int|
                                        pre.len() <= j < chunks@.len() && (
                                        #[trigger] chunks@[j]).start_byte == s
                                            && chunks@[j].end_byte == e;
                                    assert(base <= j);
                                    assert(span_emitted(chunks@, base, s, e));
                                } else {
                                    assert(span_emitted(cs_entry, base, s, e));
                                    assert(pre.subrange(0, cs_entry.len() as int) =~= cs_entry);
                                    lemma_span_emitted_extend(cs_entry, pre, base, s, e);
                                    lemma_span_emitted_extend(pre, chunks@, base, s, e);
                                }
                            }
                        }
                        if tiled {
                            assert forall|j: int|
                                base <= j < chunks@.len() implies chunk_sized_ok(
                                source@,
                                *node,
                                #[trigger] chunks@[j],
                                self.max_chunk_size as int,
                            ) by {
                                if j < pre.len() {
                                    assert(chunks@.subrange(0, pre.len() as int)[j] == chunks@[j]);
                                    assert(chunks@[j] == pre[j]);
                                } else {
                                    assert(chunk_sized_ok(
                                        source@,
                                        node.children@[i as int],
                                        chunks@[j],
                                        self.max_chunk_size as int,
                                    ));
                                    if leaf_span_in(
                                        node.children@[i as int],
                                        chunks@[j].start_byte as int,
                                        chunks@[j].end_byte as int,
                                    ) {
                                        assert(leaf_span_in(
                                            *node,
                                            chunks@[j].start_byte as int,
                                            chunks@[j].end_byte as int,
                                        ));
                                    }
                                }
                            }
                        }
                    }
                }
            } else {
                let new_piece = prev.merge_end(Chunk::from_node(child));
                let cur_size = match current {
                    Some(c) => self.chunk_size(source, c.start_byte, c.end_byte),
                    None => 0,
                };
                let over = match cur_size.checked_add(child_size) {
                    Some(total) => total > self.max_chunk_size,
                    None => true,
                };
                if over {
                    // the accumulator cannot take this sibling: flush it and
                    // start over from the end of the previous sibling
                    match current {
                        Some(c) => {
                            if !c.is_empty() {
                                proof {
                                    lemma_emit_push(
                                        chunks@,
                                        c,
                                        base,
                                        last.end_byte as int,
                                        node.end_byte as int,
                                    );
                                    if tiled {
                                        lemma_tile_push(chunks@, c, base, last.end_byte as int);
                                    }
                                }
                                chunks.push(c);
                            }
                        },
                        None => {},
                    }
                    proof {
                        if tiled {
                            assert(chunks_tile(
                                chunks@,
                                base,
                                last.end_byte as int,
                                prev.end_byte as int,
                            ));
                        }
                    }
                    proof {
                        if tiled {
                            assert(prev.end_byte == node.children@[i as int].start_byte);
                            assert(char_count_range(
                                source@,
                                new_piece.start_byte as int,
                                new_piece.end_byte as int,
                            ) == char_count_range(
                                source@,
                                child.start_byte as int,
                                child.end_byte as int,
                            ));
                        }
                    }
                    current = Some(new_piece);
                } else {
                    match current {
                        Some(c) => {
                            if !c.is_empty() {
                                let merged = c.merge(new_piece);
                                proof {
                                    if tiled {
                                        lemma_char_count_split(
                                            source@,
                                            c.start_byte as int,
                                            c.end_byte as int,
                                            new_piece.end_byte as int,
                                        );
                                        assert(char_count_range(
                                            source@,
                                            new_piece.start_byte as int,
                                            new_piece.end_byte as int,
                                        ) == char_count_range(
                                            source@,
                                            child.start_byte as int,
                                            child.end_byte as int,
                                        ));
                                    }
                                }
                                current = Some(merged);
                            } else {
                                proof {
                                    if tiled {
                                        assert(char_count_range(
                                            source@,
                                            new_piece.start_byte as int,
                                            new_piece.end_byte as int,
                                        ) == char_count_range(
                                            source@,
                                            child.start_byte as int,
                                            child.end_byte as int,
                                        ));
                                    }
                                }
                                current = Some(new_piece);
                            }
                        },
                        None => {
                            proof {
                                if tiled {
                                    assert(char_count_range(
                                        source@,
                                        new_piece.start_byte as int,
                                        new_piece.end_byte as int,
                                    ) == char_count_range(
                                        source@,
                                        child.start_byte as int,
                                        child.end_byte as int,
                                    ));
                                }
                            }
                            current = Some(new_piece);
                        },
                    }
                }
            }
            proof {
                if tiled && child_size <= self.max_chunk_size {
                    // a child within the limit holds no oversize leaf
                    assert forall|i2: int, s: int, e: int|
                        0 <= i2 < i + 1 && #[trigger] leaf_span_in(node.children@[i2], s, e)
                            && char_count_range(source@, s, e)
                            > self.max_chunk_size implies span_emitted(chunks@, base, s, e) by {
                        if i2 == i as int {
                            lemma_leaf_span_bounds(node.children@[i2], s, e);
                            lemma_char_count_mono(
                                source@,
                                node.children@[i2].start_byte as int,
                                node.children@[i2].end_byte as int,
                                s,
                                e,
                            );
                        } else {
                            assert(span_emitted(cs_entry, base, s, e));
                            assert(chunks@.subrange(0, cs_entry.len() as int) =~= cs_entry);
                            lemma_span_emitted_extend(cs_entry, chunks@, base, s, e);
                        }
                    }
                }
            }
            prev = Chunk::from_node(child);
            i = i + 1;
        }
        let ghost cs_final = chunks@;
        match current {
            Some(c) => {
                if !c.is_empty() {
                    proof {
                        lemma_emit_push(chunks@, c, base, last.end_byte as int, node.end_byte as int);
                        if tiled {
                            lemma_tile_push(chunks@, c, base, last.end_byte as int);
                        }
                    }
                    chunks.push(c);
                }
            },
            None => {},
        }
        proof {
            if tiled && node.children@.len() > 0 {
                assert(prev.end_byte == node.children@[node.children@.len() - 1].end_byte);
                assert(prev.end_byte == node.end_byte);
                assert(chunks_tile(chunks@, base, last.end_byte as int, node.end_byte as int));
                assert forall|s: int, e: int|
                    #![trigger leaf_span_in(*node, s, e)]
                    leaf_span_in(*node, s, e) && char_count_range(source@, s, e)
                        > self.max_chunk_size implies span_emitted(chunks@, base, s, e) by {
                    let i2 = choose|i2: int|
                        0 <= i2 < node.children@.len() && leaf_span_in(
                            #[trigger] node.children@[i2],
                            s,
                            e,
                        );
                    assert(span_emitted(cs_final, base, s, e));
                    assert(chunks@.subrange(0, cs_final.len() as int) =~= cs_final);
                    lemma_span_emitted_extend(cs_final, chunks@, base, s, e);
                }
            }
        }
    }
}

} // verus!
