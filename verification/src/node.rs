//! Nodes and the path resolver.
//!
//! A node is a synthetic directory or file. A directory carries the
//! constraint set chosen so far and, when a category segment has just
//! been walked, the pending category awaiting its value segment. A file
//! carries the constraint set and the catalog item it is bound to.
//!
//! Resolution of one path segment under a directory follows the
//! two-level addressing scheme: under a plain directory a segment names
//! a remaining category (or, once no category remains, a matching
//! item's display name); under a pending-category directory a segment
//! names a value, which extends the constraint set and yields a file
//! node exactly when the extended set narrows the catalog to one item.

use vstd::prelude::*;
use crate::catalog::{Catalog, Item};
use crate::constraint::{
    ConstraintSet,
    in_match,
    any_match,
    unique_match,
    match_vec,
    matching_items,
};
use crate::facets::{remaining_cat, no_remaining, remaining_categories};
use crate::strorder::name_seq;

verus! {

/// The mathematical identity of a node.
pub enum NodeV {
    Dir { cs: Seq<(Seq<char>, Seq<char>)>, pending: Option<Seq<char>> },
    File { cs: Seq<(Seq<char>, Seq<char>)>, item: int },
}

/// A synthetic directory or file node.
pub enum Node {
    Dir { cs: ConstraintSet, pending: Option<String> },
    File { cs: ConstraintSet, item: usize },
}

/// The view of an optional pending category name.
pub open spec fn opt_view(p: Option<String>) -> Option<Seq<char>> {
    match p {
        Option::Some(s) => Option::Some(s@),
        Option::None => Option::None,
    }
}

impl View for Node {
    type V = NodeV;

    open spec fn view(&self) -> NodeV {
        match self {
            Node::Dir { cs, pending } => NodeV::Dir { cs: cs@, pending: opt_view(*pending) },
            Node::File { cs, item } => NodeV::File { cs: cs@, item: *item as int },
        }
    }
}

/// The constraint set of a node.
pub open spec fn node_cs(nv: NodeV) -> Seq<(Seq<char>, Seq<char>)> {
    match nv {
        NodeV::Dir { cs, .. } => cs,
        NodeV::File { cs, .. } => cs,
    }
}

/// The pending category of a directory node.
pub open spec fn node_pending(nv: NodeV) -> Option<Seq<char>> {
    match nv {
        NodeV::Dir { pending, .. } => pending,
        NodeV::File { .. } => Option::None,
    }
}

/// The root directory's identity: no constraint, no pending category.
pub open spec fn root_nodev() -> NodeV {
    NodeV::Dir { cs: Seq::empty(), pending: Option::None }
}

/// The root directory node.
pub fn root_node() -> (r: Node)
    ensures
        r@ == root_nodev(),
{
    Node::Dir { cs: ConstraintSet::empty(), pending: Option::None }
}

/// Equality of constraint sets, by value.
pub fn cs_eq(a: &ConstraintSet, b: &ConstraintSet) -> (r: bool)
    ensures
        r == (a@ == b@),
{
    let na = a.pairs.len();
    let nb = b.pairs.len();
    if na != nb {
        proof {
            assert(a@.len() == na && b@.len() == nb);
        }
        return false;
    }
    let mut i: usize = 0;
    while i < na
        invariant
            na == a.pairs@.len(),
            na == b.pairs@.len(),
            i <= na,
            forall|t: int| 0 <= t < i ==> a@[t] == b@[t],
        decreases na - i,
    {
        if !(a.pairs[i].0 == b.pairs[i].0 && a.pairs[i].1 == b.pairs[i].1) {
            proof {
                assert(a@[i as int] != b@[i as int]);
            }
            return false;
        }
        proof {
            assert(a@[i as int] == b@[i as int]);
        }
        i = i + 1;
    }
    proof {
        assert(a@ =~= b@);
    }
    true
}

/// Equality of optional pending category names, by value.
fn opt_eq(a: &Option<String>, b: &Option<String>) -> (r: bool)
    ensures
        r == (opt_view(*a) == opt_view(*b)),
{
    match (a, b) {
        (Option::Some(x), Option::Some(y)) => *x == *y,
        (Option::None, Option::None) => true,
        _ => false,
    }
}

/// Equality of nodes, by value of their identities.
pub fn node_eq(a: &Node, b: &Node) -> (r: bool)
    ensures
        r == (a@ == b@),
{
    match (a, b) {
        (Node::Dir { cs: ca, pending: pa }, Node::Dir { cs: cb, pending: pb }) => {
            let r = cs_eq(ca, cb) && opt_eq(pa, pb);
            r
        },
        (Node::File { cs: ca, item: ia }, Node::File { cs: cb, item: ib }) => {
            let r = *ia == *ib && cs_eq(ca, cb);
            r
        },
        _ => false,
    }
}

/// The parent of a directory node: a pending-category directory falls
/// back to its plain directory, a plain directory drops its last
/// selection (back onto the selected category), and the root is its own
/// parent.
pub open spec fn parent_spec(nv: NodeV) -> NodeV {
    match nv {
        NodeV::Dir { cs, pending: Option::Some(_) } => NodeV::Dir { cs, pending: Option::None },
        NodeV::Dir { cs, pending: Option::None } => {
            if cs.len() == 0 {
                root_nodev()
            } else {
                NodeV::Dir {
                    cs: cs.take(cs.len() - 1),
                    pending: Option::Some(cs[cs.len() - 1].0),
                }
            }
        },
        NodeV::File { .. } => nv,
    }
}

impl ConstraintSet {
    /// An identical copy of this constraint set.
    pub fn duplicate(&self) -> (r: ConstraintSet)
        ensures
            r@ == self@,
    {
        let mut pairs: Vec<(String, String)> = Vec::new();
        let n = self.pairs.len();
        let mut i: usize = 0;
        while i < n
            invariant
                n == self.pairs@.len(),
                i <= n,
                pairs@.len() == i,
                forall|t: int|
                    0 <= t < i ==> pairs@[t].0@ == self.pairs@[t].0@ && pairs@[t].1@
                        == self.pairs@[t].1@,
            decreases n - i,
        {
            pairs.push((self.pairs[i].0.clone(), self.pairs[i].1.clone()));
            i = i + 1;
        }
        let r = ConstraintSet { pairs };
        proof {
            assert(r@ =~= self@);
        }
        r
    }
}

/// An identical copy of a node.
pub fn dup_node(n: &Node) -> (r: Node)
    ensures
        r@ == n@,
{
    match n {
        Node::Dir { cs, pending } => {
            let p = match pending {
                Option::Some(s) => Option::Some(s.clone()),
                Option::None => Option::None,
            };
            Node::Dir { cs: cs.duplicate(), pending: p }
        },
        Node::File { cs, item } => Node::File { cs: cs.duplicate(), item: *item },
    }
}

/// The parent node of a directory.
pub fn parent_of(n: &Node) -> (r: Node)
    requires
        n matches Node::Dir { .. },
    ensures
        r@ == parent_spec(n@),
{
    match n {
        Node::Dir { cs, pending } => {
            match pending {
                Option::Some(_) => Node::Dir { cs: cs.duplicate(), pending: Option::None },
                Option::None => {
                    let n_pairs = cs.pairs.len();
                    if n_pairs == 0 {
                        proof {
                            assert(cs@.len() == 0);
                        }
                        root_node()
                    } else {
                        let mut pairs: Vec<(String, String)> = Vec::new();
                        let mut i: usize = 0;
                        while i < n_pairs - 1
                            invariant
                                n_pairs == cs.pairs@.len(),
                                n_pairs >= 1,
                                i <= n_pairs - 1,
                                pairs@.len() == i,
                                forall|t: int|
                                    0 <= t < i ==> pairs@[t].0@ == cs.pairs@[t].0@
                                        && pairs@[t].1@ == cs.pairs@[t].1@,
                            decreases n_pairs - i,
                        {
                            pairs.push((cs.pairs[i].0.clone(), cs.pairs[i].1.clone()));
                            i = i + 1;
                        }
                        let last_cat = cs.pairs[n_pairs - 1].0.clone();
                        let r = Node::Dir {
                            cs: ConstraintSet { pairs },
                            pending: Option::Some(last_cat),
                        };
                        proof {
                            let short = ConstraintSet { pairs: pairs };
                            assert(short@ =~= cs@.take(cs@.len() - 1));
                            assert(last_cat@ == cs@[cs@.len() - 1].0);
                        }
                        r
                    }
                },
            }
        },
        Node::File { .. } => root_node(),
    }
}

/// The least matching item whose display name is `name`, searching from
/// position `i` of the catalog.
pub open spec fn first_named(
    items: Seq<Item>,
    cs: Seq<(Seq<char>, Seq<char>)>,
    name: Seq<char>,
    i: int,
) -> Option<int>
    decreases items.len() - i,
{
    if i < 0 || i >= items.len() {
        Option::None
    } else if in_match(items, cs, i) && items[i].name@ == name {
        Option::Some(i)
    } else {
        first_named(items, cs, name, i + 1)
    }
}

/// A hit of `first_named` is a matching item bearing the name.
pub proof fn lemma_first_named_valid(
    items: Seq<Item>,
    cs: Seq<(Seq<char>, Seq<char>)>,
    name: Seq<char>,
    i: int,
    w: int,
)
    requires
        first_named(items, cs, name, i) == Option::Some(w),
    ensures
        in_match(items, cs, w),
        items[w].name@ == name,
    decreases items.len() - i,
{
    if i < 0 || i >= items.len() {
    } else if in_match(items, cs, i) && items[i].name@ == name {
    } else {
        lemma_first_named_valid(items, cs, name, i + 1, w);
    }
}

/// What one path segment denotes under a directory node, if anything.
pub open spec fn resolve_spec(
    items: Seq<Item>,
    cs: Seq<(Seq<char>, Seq<char>)>,
    pending: Option<Seq<char>>,
    name: Seq<char>,
) -> Option<NodeV> {
    match pending {
        Option::Some(c) => {
            let cs2 = cs.push((c, name));
            if unique_match(items, cs2) {
                Option::Some(
                    NodeV::File { cs: cs2, item: choose|i: int| in_match(items, cs2, i) },
                )
            } else if any_match(items, cs2) {
                Option::Some(NodeV::Dir { cs: cs2, pending: Option::None })
            } else {
                Option::None
            }
        },
        Option::None => {
            if remaining_cat(items, cs, name) {
                Option::Some(NodeV::Dir { cs, pending: Option::Some(name) })
            } else if no_remaining(items, cs) {
                match first_named(items, cs, name, 0) {
                    Option::Some(i) => Option::Some(NodeV::File { cs, item: i }),
                    Option::None => Option::None,
                }
            } else {
                Option::None
            }
        },
    }
}

/// `first_named` finds `w` when `w` is a hit and nothing before it is.
proof fn lemma_first_named_found(
    items: Seq<Item>,
    cs: Seq<(Seq<char>, Seq<char>)>,
    name: Seq<char>,
    i: int,
    w: int,
)
    requires
        0 <= i <= w < items.len(),
        in_match(items, cs, w),
        items[w].name@ == name,
        forall|i0: int| i <= i0 < w ==> !(in_match(items, cs, i0) && items[i0].name@ == name),
    ensures
        first_named(items, cs, name, i) == Option::Some(w),
    decreases w - i,
{
    if i < w {
        lemma_first_named_found(items, cs, name, i + 1, w);
    }
}

/// `first_named` finds nothing when no matching item bears the name.
proof fn lemma_first_named_none(
    items: Seq<Item>,
    cs: Seq<(Seq<char>, Seq<char>)>,
    name: Seq<char>,
    i: int,
)
    requires
        i >= 0,
        forall|i0: int| !(in_match(items, cs, i0) && items[i0].name@ == name),
    ensures
        first_named(items, cs, name, i) is None,
    decreases items.len() - i,
{
    if i < items.len() {
        lemma_first_named_none(items, cs, name, i + 1);
    }
}

/// Resolves one path segment under a directory node, as §`resolve_spec`
/// describes: `Some` exactly when the segment denotes a child.
pub fn resolve(cat: &Catalog, node: &Node, name: &String) -> (r: Option<Node>)
    requires
        cat.wf(),
        node matches Node::Dir { .. },
    ensures
        ({
            let expected = resolve_spec(cat.items@, node_cs(node@), node_pending(node@), name@);
            match r {
                Option::Some(n) => expected == Option::Some(n@),
                Option::None => expected is None,
            }
        }),
{
    match node {
        Node::Dir { cs, pending } => {
            proof {
                assert(node_cs(node@) == cs@);
                assert(node_pending(node@) == opt_view(*pending));
            }
            match pending {
                Option::Some(c) => {
                    let cs2 = cs.push_pair(c, name);
                    let m2 = matching_items(cat, &cs2);
                    if m2.len() == 0 {
                        None
                    } else if m2.len() == 1 {
                        let item = m2[0];
                        proof {
                            assert(in_match(cat.items@, cs2@, m2@[0] as int));
                            let ich = choose|i: int| in_match(cat.items@, cs2@, i);
                            assert(in_match(cat.items@, cs2@, ich));
                            assert(ich == item as int);
                        }
                        Some(Node::File { cs: cs2, item })
                    } else {
                        Some(Node::Dir { cs: cs2, pending: None })
                    }
                },
                Option::None => {
                    let m = matching_items(cat, cs);
                    let rem = remaining_categories(cat, cs, &m);
                    if crate::strorder::contains_name(&rem, name) {
                        proof {
                            assert(remaining_cat(cat.items@, cs@, name@));
                        }
                        return Some(
                            Node::Dir { cs: cs.duplicate(), pending: Some(name.clone()) },
                        );
                    }
                    if rem.len() > 0 {
                        proof {
                            assert(name_seq(rem@).contains(name_seq(rem@)[0]));
                            assert(remaining_cat(cat.items@, cs@, name_seq(rem@)[0]));
                            assert(!remaining_cat(cat.items@, cs@, name@));
                        }
                        return None;
                    }
                    proof {
                        assert forall|x: Seq<char>| !remaining_cat(cat.items@, cs@, x) by {
                            if remaining_cat(cat.items@, cs@, x) {
                                assert(name_seq(rem@).contains(x));
                            }
                        };
                        assert(no_remaining(cat.items@, cs@));
                    }
                    let nm = m.len();
                    let mut t: usize = 0;
                    while t < nm
                        invariant
                            cat.wf(),
                            match_vec(cat.items@, cs@, m@),
                            nm == m@.len(),
                            t <= nm,
                            no_remaining(cat.items@, cs@),
                            !remaining_cat(cat.items@, cs@, name@),
                            node@ == (NodeV::Dir { cs: cs@, pending: Option::<Seq<char>>::None }),
                            forall|t0: int|
                                0 <= t0 < t ==> cat.items@[m@[t0] as int].name@ != name@,
                        decreases nm - t,
                    {
                        let id = m[t];
                        proof {
                            assert(in_match(cat.items@, cs@, m@[t as int] as int));
                        }
                        if cat.items[id].name == *name {
                            proof {
                                assert(cat.items.len() == cat.items@.len());
                                assert forall|i0: int|
                                    0 <= i0 < id as int implies !(in_match(cat.items@, cs@, i0)
                                    && cat.items@[i0].name@ == name@) by {
                                    if in_match(cat.items@, cs@, i0) {
                                        assert(m@.contains(i0 as usize));
                                        let t1 = choose|t1: int|
                                            0 <= t1 < m@.len() && m@[t1] == i0 as usize;
                                        if t1 >= t {
                                            if t1 > t {
                                                assert(m@[t as int] < m@[t1]);
                                            }
                                            assert(false);
                                        }
                                        assert(cat.items@[m@[t1] as int].name@ != name@);
                                    }
                                };
                                lemma_first_named_found(
                                    cat.items@,
                                    cs@,
                                    name@,
                                    0,
                                    id as int,
                                );
                            }
                            return Some(Node::File { cs: cs.duplicate(), item: id });
                        }
                        t = t + 1;
                    }
                    proof {
                        assert forall|i0: int|
                            !(in_match(cat.items@, cs@, i0) && cat.items@[i0].name@
                                == name@) by {
                            if in_match(cat.items@, cs@, i0) {
                                assert(cat.items.len() == cat.items@.len());
                                assert(m@.contains(i0 as usize));
                                let t1 = choose|t1: int|
                                    0 <= t1 < m@.len() && m@[t1] == i0 as usize;
                                assert(cat.items@[m@[t1] as int].name@ != name@);
                            }
                        };
                        lemma_first_named_none(cat.items@, cs@, name@, 0);
                    }
                    None
                },
            }
        },
        Node::File { .. } => None,
    }
}

} // verus!
