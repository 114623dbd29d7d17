//! The dispatcher's registry: canonical project root to indexer handle.
//!
//! The registry itself is pure: it maps each canonical root to the number
//! of the project indexer serving it, creating a fresh number on first
//! sight and never a second one for the same root. The caller serializes
//! access (one atomic entry-or-insert per lookup) and owns the actual
//! indexer each number names.

use vstd::prelude::*;
use crate::errors::IndexError;
use crate::text::bytes_eq;

verus! {

/// One registered project: its canonical root and its indexer's number.
#[derive(Debug)]
pub struct ProjectEntry {
    pub root: Vec<u8>,
    pub indexer: u64,
}

/// Some entry holds this root.
pub open spec fn reg_has(es: Seq<ProjectEntry>, root: Seq<u8>) -> bool {
    exists|i: int| 0 <= i < es.len() && (#[trigger] es[i]).root@ == root
}

/// The index of the entry holding this root (meaningful when `reg_has`).
pub open spec fn reg_idx(es: Seq<ProjectEntry>, root: Seq<u8>) -> int {
    choose|i: int| 0 <= i < es.len() && (#[trigger] es[i]).root@ == root
}

/// The indexer number registered for this root, if any.
pub open spec fn reg_id(es: Seq<ProjectEntry>, root: Seq<u8>) -> Option<u64> {
    if reg_has(es, root) {
        Some(es[reg_idx(es, root)].indexer)
    } else {
        None
    }
}

/// No two entries hold the same root.
pub open spec fn reg_roots_unique(es: Seq<ProjectEntry>) -> bool {
    forall|i: int, j: int|
        0 <= i < j < es.len() ==> (#[trigger] es[i]).root@ != (#[trigger] es[j]).root@
}

/// How one lookup changes the registry: nothing when the root is known;
/// one fresh entry, under a number never handed out before, when it is new.
pub open spec fn dispatch_post(
    pre: Seq<ProjectEntry>,
    post: Seq<ProjectEntry>,
    root: Seq<u8>,
    id: u64,
) -> bool {
    if reg_has(pre, root) {
        &&& post == pre
        &&& reg_id(pre, root) == Some(id)
    } else {
        &&& post.len() == pre.len() + 1
        &&& post[pre.len() as int].root@ == root
        &&& post[pre.len() as int].indexer == id
        &&& forall|j: int| 0 <= j < pre.len() ==> post[j] == pre[j]
        &&& forall|j: int| 0 <= j < pre.len() ==> (#[trigger] pre[j]).indexer != id
    }
}

/// The registry of project indexers, keyed by canonical root.
pub struct Dispatcher {
    entries: Vec<ProjectEntry>,
    next: u64,
}

impl Dispatcher {
    /// The registered projects, as the contracts speak of them.
    pub closed spec fn entries(self) -> Seq<ProjectEntry> {
        self.entries@
    }

    /// Well-formedness: roots and indexer numbers unique, numbers below
    /// the next to be handed out.
    pub closed spec fn wf(self) -> bool {
        &&& reg_roots_unique(self.entries@)
        &&& forall|i: int|
            0 <= i < self.entries@.len() ==> (#[trigger] self.entries@[i]).indexer < self.next
        &&& forall|i: int, j: int|
            0 <= i < j < self.entries@.len() ==> (#[trigger] self.entries@[i]).indexer != (
            #[trigger] self.entries@[j]).indexer
    }

    /// An empty registry.
    pub fn new() -> (r: Dispatcher)
        ensures
            r.wf(),
            r.entries() =~= Seq::<ProjectEntry>::empty(),
    {
        Dispatcher { entries: Vec::new(), next: 0 }
    }

    /// The indexer for a canonical root: the registered one when the root
    /// is known, a fresh one otherwise — never a second indexer for the
    /// same root. Fails only when the registry has run out of numbers.
    pub fn get_or_create(&mut self, root: &Vec<u8>) -> (r: Result<u64, IndexError>)
        requires
            old(self).wf(),
        ensures
            final(self).wf(),
            match r {
                Ok(id) => dispatch_post(old(self).entries(), final(self).entries(), root@, id),
                Err(e) => e == IndexError::Internal && final(self).entries() == old(
                    self,
                ).entries(),
            },
            r is Err <==> !reg_has(old(self).entries(), root@) && old(self).exhausted(),
    {
        let mut i: usize = 0;
        let mut found: bool = false;
        let mut idx: usize = 0;
        while i < self.entries.len() && !found
            invariant
                i <= self.entries@.len(),
                found ==> idx < self.entries@.len() && self.entries@[idx as int].root@ == root@,
                !found ==> forall|j: int| 0 <= j < i ==> (#[trigger] self.entries@[j]).root@
                    != root@,
            decreases self.entries@.len() - i,
        {
            if bytes_eq(&self.entries[i].root, root) {
                found = true;
                idx = i;
            }
            i = i + 1;
        }
        if found {
            let id = self.entries[idx].indexer;
            proof {
                let pre = self.entries@;
                assert(reg_has(pre, root@));
                let i0 = reg_idx(pre, root@);
                assert(0 <= i0 < pre.len() && pre[i0].root@ == root@);
                assert(i0 == idx) by {
                    if i0 != idx {
                        assert(reg_roots_unique(pre));
                    }
                }
            }
            Ok(id)
        } else {
            if self.next == u64::MAX {
                return Err(IndexError::Internal);
            }
            let id = self.next;
            self.next = id + 1;
            let root_copy = crate::text::byte_slice(root, 0, root.len());
            proof {
                assert(root_copy@ =~= root@);
            }
            self.entries.push(ProjectEntry { root: root_copy, indexer: id });
            proof {
                let pre = old(self).entries();
                let post = self.entries@;
                assert forall|a: int, b: int| 0 <= a < b < post.len() implies (
                #[trigger] post[a]).root@ != (#[trigger] post[b]).root@ by {
                    if b < pre.len() {
                        assert(post[a] == pre[a]);
                        assert(post[b] == pre[b]);
                    } else {
                        assert(post[a] == pre[a]);
                        if post[a].root@ == root@ {
                            assert(reg_has(pre, root@));
                        }
                    }
                }
            }
            Ok(id)
        }
    }

    /// Whether every indexer number has been handed out.
    pub closed spec fn exhausted(self) -> bool {
        self.next == u64::MAX
    }
}

/// Looking the same canonical root up twice names the same indexer, and
/// the second lookup creates nothing: however many lookups race on one
/// root, exactly one indexer is ever created for it.
pub proof fn lemma_at_most_once_creation(
    s0: Seq<ProjectEntry>,
    s1: Seq<ProjectEntry>,
    s2: Seq<ProjectEntry>,
    root: Seq<u8>,
    id1: u64,
    id2: u64,
)
    requires
        dispatch_post(s0, s1, root, id1),
        dispatch_post(s1, s2, root, id2),
    ensures
        id2 == id1,
        s2 == s1,
{
    if reg_has(s0, root) {
        let i = reg_idx(s0, root);
        assert(0 <= i < s0.len() && s0[i].root@ == root);
        assert(s1 == s0);
        assert(reg_id(s0, root) == Some(id1));
        assert(reg_id(s1, root) == Some(id2));
    } else {
        assert(s1[s0.len() as int].root@ == root);
        assert(reg_has(s1, root));
        let i = reg_idx(s1, root);
        assert(0 <= i < s1.len() && s1[i].root@ == root);
        assert(i == s0.len() as int) by {
            if i < s0.len() {
                assert(s1[i] == s0[i]);
                assert(reg_has(s0, root));
            }
        }
        assert(s2 == s1);
        assert(reg_id(s1, root) == Some(id2));
        assert(id2 == s1[i].indexer);
    }
}

/// Two requests whose roots canonicalize to the same path address the
/// same project indexer: the registry's answer depends on the canonical
/// root alone.
pub proof fn lemma_same_root_same_indexer(
    es: Seq<ProjectEntry>,
    root_a: Seq<u8>,
    root_b: Seq<u8>,
)
    requires
        root_a == root_b,
    ensures
        reg_id(es, root_a) == reg_id(es, root_b),
{
}

} // verus!
