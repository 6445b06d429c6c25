//! The inode allocator.
//!
//! Every distinct node identity ever resolved receives a process-wide
//! integer identifier, handed out in allocation order and never reused.
//! The table is append-only: interning a node already seen returns its
//! existing identifier and leaves the table unchanged. Identifier 1 is
//! the root directory, pre-allocated at construction.
//!
//! Concurrent callers are expected to serialize calls through a lock
//! around the whole table (the adapter's owner does so); the stability
//! laws below then carry over to overlapping lookups of the same path.

use vstd::prelude::*;
use crate::node::{Node, NodeV, node_eq, root_node, root_nodev};

verus! {

/// Pairwise distinct node identities.
pub open spec fn distinct(t: Seq<NodeV>) -> bool {
    forall|i: int, j: int| 0 <= i < j < t.len() ==> t[i] != t[j]
}

/// One intern step: `t1` is `t0`, extended by `nv` only if `nv` was
/// absent, and `ino` points at `nv` in `t1` (identifiers are positions
/// shifted by one).
pub open spec fn interned(t0: Seq<NodeV>, t1: Seq<NodeV>, nv: NodeV, ino: u64) -> bool {
    &&& t1 == if t0.contains(nv) {
        t0
    } else {
        t0.push(nv)
    }
    &&& 1 <= ino as int <= t1.len()
    &&& t1[ino as int - 1] == nv
}

/// The append-only table of interned nodes; the node with identifier
/// `k` sits at position `k - 1`.
pub struct InodeTable {
    nodes: Vec<Node>,
}

impl View for InodeTable {
    type V = Seq<NodeV>;

    closed spec fn view(&self) -> Seq<NodeV> {
        self.nodes@.map(|i: int, n: Node| n@)
    }
}

impl InodeTable {
    /// The root directory is pre-allocated as identifier 1 and all
    /// recorded identities are distinct.
    pub open spec fn wf(&self) -> bool {
        self@.len() >= 1 && self@[0] == root_nodev() && distinct(self@)
    }

    /// A fresh table holding only the root directory.
    pub fn new() -> (t: Self)
        ensures
            t.wf(),
            t@.len() == 1,
            t@[0] == root_nodev(),
    {
        let mut nodes: Vec<Node> = Vec::new();
        nodes.push(root_node());
        let t = InodeTable { nodes };
        proof {
            assert(t@.len() == 1);
            assert(t@[0] == root_nodev());
        }
        t
    }

    /// Returns the identifier of `n`, allocating the next unused one if
    /// `n` was never interned before. Identifiers are stable: the table
    /// only ever grows, and an interned identity keeps its position.
    pub fn intern(&mut self, n: Node) -> (ino: u64)
        requires
            old(self).wf(),
        ensures
            final(self).wf(),
            interned(old(self)@, final(self)@, n@, ino),
    {
        let count = self.nodes.len();
        let mut i: usize = 0;
        while i < count
            invariant
                old(self).wf(),
                *self == *old(self),
                count == self.nodes@.len(),
                i <= count,
                forall|t: int| 0 <= t < i ==> self@[t] != n@,
            decreases count - i,
        {
            if node_eq(&self.nodes[i], &n) {
                proof {
                    assert(self@[i as int] == n@);
                    assert(self@.contains(n@));
                }
                return (i as u64) + 1;
            }
            i = i + 1;
        }
        proof {
            if self@.contains(n@) {
                let t = choose|t: int| 0 <= t < self@.len() && self@[t] == n@;
                assert(false);
            }
        }
        self.nodes.push(n);
        proof {
            assert(self@ =~= old(self)@.push(n@));
            assert(self.nodes@.len() == self.nodes.len());
            assert(count < usize::MAX);
            assert(self@[0] == old(self)@[0]);
            assert forall|i1: int, j1: int|
                0 <= i1 < j1 < self@.len() implies self@[i1] != self@[j1] by {
                if j1 < old(self)@.len() {
                } else {
                    assert(self@[j1] == n@);
                    assert(self@[i1] == old(self)@[i1]);
                    if self@[i1] == n@ {
                        assert(old(self)@.contains(n@));
                    }
                }
            };
        }
        (count as u64) + 1
    }

    /// The node recorded under `ino`, if any.
    pub fn get(&self, ino: u64) -> (r: Option<&Node>)
        ensures
            match r {
                Option::Some(n) => 1 <= ino as int <= self@.len() && n@ == self@[ino as int
                    - 1],
                Option::None => !(1 <= ino as int <= self@.len()),
            },
    {
        proof {
            assert(self.nodes.len() == self@.len());
        }
        if ino >= 1 && ino <= self.nodes.len() as u64 {
            let idx = (ino - 1) as usize;
            Some(&self.nodes[idx])
        } else {
            None
        }
    }
}

/// Interning the same identity twice yields the same identifier and
/// leaves the table as it was.
pub proof fn lemma_intern_stable(
    t0: Seq<NodeV>,
    t1: Seq<NodeV>,
    t2: Seq<NodeV>,
    nv: NodeV,
    i1: u64,
    i2: u64,
)
    requires
        distinct(t1),
        interned(t0, t1, nv, i1),
        interned(t1, t2, nv, i2),
    ensures
        i2 == i1,
        t2 == t1,
{
    assert(t1.contains(nv)) by {
        assert(t1[i1 as int - 1] == nv);
    };
    assert(t2 == t1);
    assert(t2[i2 as int - 1] == nv);
    if i1 != i2 {
        assert(t1[i1 as int - 1] == t1[i2 as int - 1]);
        assert(false);
    }
}

/// Two identifiers recorded for distinct identities are distinct.
pub proof fn lemma_intern_injective(
    t: Seq<NodeV>,
    a: NodeV,
    b: NodeV,
    ia: u64,
    ib: u64,
)
    requires
        distinct(t),
        1 <= ia as int <= t.len(),
        t[ia as int - 1] == a,
        1 <= ib as int <= t.len(),
        t[ib as int - 1] == b,
        a != b,
    ensures
        ia != ib,
{
}

/// An intern step never moves or removes what the table already held.
pub proof fn lemma_intern_extends(t0: Seq<NodeV>, t1: Seq<NodeV>, nv: NodeV, ino: u64)
    requires
        interned(t0, t1, nv, ino),
    ensures
        t0.len() <= t1.len(),
        forall|k: int| 0 <= k < t0.len() ==> t1[k] == t0[k],
{
    if !t0.contains(nv) {
        assert(t1 == t0.push(nv));
    }
}

} // verus!
