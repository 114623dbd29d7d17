//! Embedding vectors and the distance that ranks them.
//!
//! The embedding oracle itself is outside this library: whatever model
//! produces the vectors, they reach the store as fixed-point integer
//! coordinates (the oracle's floating-point output scaled and clamped by
//! the caller). Ranking uses squared Euclidean distance, the metric of the
//! reference oracle's training regime; vectors of unequal width are
//! compared as if the shorter were padded with zeros.

use vstd::prelude::*;

verus! {

/// The largest magnitude an embedding coordinate may carry.
pub const EMBEDDING_COORD_MAX: i64 = 1048576;

/// The largest number of coordinates an embedding may carry.
pub const EMBEDDING_DIM_MAX: usize = 4096;

/// An embedding vector: bounded fixed-point coordinates, few enough that a
/// squared distance always fits in u64.
#[derive(Debug)]
pub struct Embedding {
    coords: Vec<i64>,
}

impl View for Embedding {
    type V = Seq<i64>;

    closed spec fn view(&self) -> Seq<i64> {
        self.coords@
    }
}

/// The bounds every embedding holds by construction.
pub open spec fn embedding_wf(s: Seq<i64>) -> bool {
    &&& s.len() <= EMBEDDING_DIM_MAX
    &&& forall|i: int| 0 <= i < s.len() ==> -EMBEDDING_COORD_MAX <= #[trigger] s[i]
        <= EMBEDDING_COORD_MAX
}

/// The coordinate at `i` of `s`, with zero beyond its width.
pub open spec fn coord_or_zero(s: Seq<i64>, i: int) -> int {
    if 0 <= i < s.len() {
        s[i] as int
    } else {
        0
    }
}

/// The squared Euclidean distance over the first `n` coordinates.
pub open spec fn sq_dist_prefix(a: Seq<i64>, b: Seq<i64>, n: int) -> int
    decreases n,
{
    if n <= 0 {
        0
    } else {
        sq_dist_prefix(a, b, n - 1) + (coord_or_zero(a, n - 1) - coord_or_zero(b, n - 1)) * (
        coord_or_zero(a, n - 1) - coord_or_zero(b, n - 1))
    }
}

/// The squared Euclidean distance between two embeddings, the shorter one
/// read as padded with zeros.
pub open spec fn sq_dist(a: Seq<i64>, b: Seq<i64>) -> int {
    sq_dist_prefix(a, b, if a.len() >= b.len() {
        a.len() as int
    } else {
        b.len() as int
    })
}

impl Embedding {
    /// Holds of every value of the type: constructors establish it and no
    /// method disturbs it.
    #[verifier::type_invariant]
    spec fn inv(self) -> bool {
        embedding_wf(self.coords@)
    }

    /// Wraps a coordinate vector, or refuses one outside the bounds.
    pub fn new(coords: Vec<i64>) -> (r: Option<Embedding>)
        ensures
            r matches Some(e) ==> e@ == coords@ && embedding_wf(e@),
            r is None <==> !embedding_wf(coords@),
    {
        if coords.len() > EMBEDDING_DIM_MAX {
            return None;
        }
        let mut i: usize = 0;
        while i < coords.len()
            invariant
                i <= coords.len(),
                coords.len() <= EMBEDDING_DIM_MAX,
                forall|j: int| 0 <= j < i ==> -EMBEDDING_COORD_MAX <= #[trigger] coords@[j]
                    <= EMBEDDING_COORD_MAX,
            decreases coords.len() - i,
        {
            let c = coords[i];
            if c < -EMBEDDING_COORD_MAX || c > EMBEDDING_COORD_MAX {
                return None;
            }
            i = i + 1;
        }
        Some(Embedding { coords })
    }

    /// The number of coordinates.
    pub fn dim(&self) -> (n: usize)
        ensures
            n == self@.len(),
    {
        self.coords.len()
    }

    /// The coordinate at `i`, read as zero beyond the vector's width.
    fn coord(&self, i: usize) -> (c: i64)
        ensures
            c == coord_or_zero(self@, i as int),
            -EMBEDDING_COORD_MAX <= c <= EMBEDDING_COORD_MAX,
    {
        proof {
            use_type_invariant(self);
        }
        if i < self.coords.len() {
            self.coords[i]
        } else {
            0
        }
    }

    /// The squared Euclidean distance from `self` to `other`, the shorter
    /// vector read as padded with zeros.
    pub fn distance(&self, other: &Embedding) -> (d: u64)
        ensures
            d == sq_dist(self@, other@),
    {
        proof {
            use_type_invariant(self);
            use_type_invariant(other);
        }
        let n = if self.coords.len() >= other.coords.len() {
            self.coords.len()
        } else {
            other.coords.len()
        };
        let mut acc: u64 = 0;
        let mut i: usize = 0;
        while i < n
            invariant
                i <= n,
                n == if self@.len() >= other@.len() {
                    self@.len()
                } else {
                    other@.len()
                },
                n <= EMBEDDING_DIM_MAX,
                embedding_wf(self@),
                embedding_wf(other@),
                acc == sq_dist_prefix(self@, other@, i as int),
                acc <= i * 0x40000000000,
            decreases n - i,
        {
            let a = self.coord(i);
            let b = other.coord(i);
            let d = a - b;
            proof {
                assert(0 <= d * d <= 0x40000000000) by (nonlinear_arith)
                    requires
                        -0x200000 <= d <= 0x200000,
                ;
                assert((i + 1) * 0x40000000000 == i * 0x40000000000 + 0x40000000000)
                    by (nonlinear_arith);
                assert(i * 0x40000000000 <= 4096 * 0x40000000000) by (nonlinear_arith)
                    requires
                        0 <= i <= 4096,
                ;
            }
            let sq = (d * d) as u64;
            acc = acc + sq;
            i = i + 1;
        }
        acc
    }
}

} // verus!

