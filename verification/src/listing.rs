//! Directory listings.
//!
//! The children of a directory are synthesized deterministically: a
//! plain directory lists its remaining categories in ascending
//! lexicographic order, or, once no category remains, its matching
//! items in ascending identifier order; a pending-category directory
//! lists the values carried by matching items in ascending
//! lexicographic order. Each entry's node is exactly what resolving the
//! entry's name yields, so listings and lookups agree.

use vstd::prelude::*;
use crate::catalog::{Catalog, Item};
use crate::constraint::{ConstraintSet, in_match, any_match, unique_match, match_vec, matching_items};
use crate::facets::{
    remaining_cat,
    no_remaining,
    value_present,
    remaining_values,
    remaining_categories,
};
use crate::node::{Node, NodeV, resolve_spec, opt_view};
use crate::strorder::{name_seq, strictly_sorted, lemma_sorted_unique};

verus! {

/// One synthesized directory entry: the child's name and node.
pub struct DirEntry {
    pub name: String,
    pub node: Node,
}

/// The identity of a directory entry.
pub struct EntryV {
    pub name: Seq<char>,
    pub node: NodeV,
}

impl View for DirEntry {
    type V = EntryV;

    open spec fn view(&self) -> EntryV {
        EntryV { name: self.name@, node: self.node@ }
    }
}

/// The identities of a vector of entries.
pub open spec fn entry_views(es: Seq<DirEntry>) -> Seq<EntryV> {
    es.map(|k: int, e: DirEntry| e@)
}

/// The names of a sequence of entries.
pub open spec fn entry_names(es: Seq<EntryV>) -> Seq<Seq<char>> {
    es.map(|k: int, e: EntryV| e.name)
}

/// The item of a file node; `-1` for directories.
pub open spec fn node_item(nv: NodeV) -> int {
    match nv {
        NodeV::File { item, .. } => item,
        NodeV::Dir { .. } => -1,
    }
}

/// The children of a fully determined directory: its matching items as
/// files, ascending by item identifier, named by display name.
pub open spec fn file_listing_ok(
    items: Seq<Item>,
    cs: Seq<(Seq<char>, Seq<char>)>,
    es: Seq<EntryV>,
) -> bool {
    &&& forall|k1: int, k2: int|
        0 <= k1 < k2 < es.len() ==> node_item(es[k1].node) < node_item(es[k2].node)
    &&& forall|k: int|
        0 <= k < es.len() ==> es[k].node == (NodeV::File {
            cs,
            item: node_item(es[k].node),
        }) && in_match(items, cs, node_item(es[k].node)) && es[k].name == items[node_item(
            es[k].node,
        )].name@
    &&& forall|i: int|
        in_match(items, cs, i) ==> exists|k: int|
            0 <= k < es.len() && node_item(es[k].node) == i
}

/// The children of a directory with remaining categories: one
/// subdirectory per remaining category, ascending by name.
pub open spec fn cat_listing_ok(
    items: Seq<Item>,
    cs: Seq<(Seq<char>, Seq<char>)>,
    es: Seq<EntryV>,
) -> bool {
    &&& strictly_sorted(entry_names(es))
    &&& forall|x: Seq<char>| entry_names(es).contains(x) ==> remaining_cat(items, cs, x)
    &&& forall|x: Seq<char>| remaining_cat(items, cs, x) ==> entry_names(es).contains(x)
    &&& forall|k: int|
        0 <= k < es.len() ==> es[k].node == (NodeV::Dir {
            cs,
            pending: Option::Some(es[k].name),
        })
}

/// The children of a pending-category directory: one entry per value
/// carried by a matching item, ascending by name, each resolving as a
/// value segment would.
pub open spec fn val_listing_ok(
    items: Seq<Item>,
    cs: Seq<(Seq<char>, Seq<char>)>,
    c: Seq<char>,
    es: Seq<EntryV>,
) -> bool {
    &&& strictly_sorted(entry_names(es))
    &&& forall|x: Seq<char>| entry_names(es).contains(x) ==> value_present(items, cs, c, x)
    &&& forall|x: Seq<char>| value_present(items, cs, c, x) ==> entry_names(es).contains(x)
    &&& forall|k: int|
        0 <= k < es.len() ==> resolve_spec(items, cs, Option::Some(c), es[k].name)
            == Option::Some(es[k].node)
}

/// The canonical children of a directory node.
pub open spec fn listing_ok(items: Seq<Item>, nv: NodeV, es: Seq<EntryV>) -> bool {
    match nv {
        NodeV::Dir { cs, pending: Option::None } => {
            if no_remaining(items, cs) {
                file_listing_ok(items, cs, es)
            } else {
                cat_listing_ok(items, cs, es)
            }
        },
        NodeV::Dir { cs, pending: Option::Some(c) } => val_listing_ok(items, cs, c, es),
        NodeV::File { .. } => false,
    }
}

/// Builds the children of a directory node.
pub fn dir_entries(cat: &Catalog, node: &Node) -> (r: Vec<DirEntry>)
    requires
        cat.wf(),
        node matches Node::Dir { .. },
    ensures
        listing_ok(cat.items@, node@, entry_views(r@)),
{
    match node {
        Node::Dir { cs, pending } => {
            proof {
                assert(node@ == (NodeV::Dir { cs: cs@, pending: opt_view(*pending) }));
            }
            match pending {
                Option::None => {
                    let m = matching_items(cat, cs);
                    let rem = remaining_categories(cat, cs, &m);
                    let mut r: Vec<DirEntry> = Vec::new();
                    if rem.len() > 0 {
                        proof {
                            assert(name_seq(rem@).contains(name_seq(rem@)[0]));
                            assert(remaining_cat(cat.items@, cs@, name_seq(rem@)[0]));
                            assert(!no_remaining(cat.items@, cs@));
                        }
                        let nk = rem.len();
                        let mut k: usize = 0;
                        while k < nk
                            invariant
                                nk == rem@.len(),
                                k <= nk,
                                r@.len() == k,
                                strictly_sorted(name_seq(rem@)),
                                forall|k0: int|
                                    0 <= k0 < k ==> entry_views(r@)[k0].name == name_seq(
                                        rem@,
                                    )[k0],
                                forall|k0: int|
                                    0 <= k0 < k ==> entry_views(r@)[k0].node == (NodeV::Dir {
                                        cs: cs@,
                                        pending: Option::Some(name_seq(rem@)[k0]),
                                    }),
                            decreases nk - k,
                        {
                            r.push(
                                DirEntry {
                                    name: rem[k].clone(),
                                    node: Node::Dir {
                                        cs: cs.duplicate(),
                                        pending: Some(rem[k].clone()),
                                    },
                                },
                            );
                            k = k + 1;
                        }
                        proof {
                            let es = entry_views(r@);
                            assert(entry_names(es) =~= name_seq(rem@));
                            assert forall|k0: int|
                                0 <= k0 < es.len() implies es[k0].node == (NodeV::Dir {
                                cs: cs@,
                                pending: Option::Some(es[k0].name),
                            }) by {
                                assert(es[k0].name == name_seq(rem@)[k0]);
                            };
                            assert(cat_listing_ok(cat.items@, cs@, es));
                        }
                    } else {
                        proof {
                            assert forall|x: Seq<char>|
                                !remaining_cat(cat.items@, cs@, x) by {
                                if remaining_cat(cat.items@, cs@, x) {
                                    assert(name_seq(rem@).contains(x));
                                }
                            };
                            assert(no_remaining(cat.items@, cs@));
                        }
                        let nt = m.len();
                        let mut t: usize = 0;
                        while t < nt
                            invariant
                                cat.wf(),
                                match_vec(cat.items@, cs@, m@),
                                nt == m@.len(),
                                t <= nt,
                                r@.len() == t,
                                forall|k0: int|
                                    0 <= k0 < t ==> entry_views(r@)[k0].node == (NodeV::File {
                                        cs: cs@,
                                        item: m@[k0] as int,
                                    }),
                                forall|k0: int|
                                    0 <= k0 < t ==> entry_views(r@)[k0].name == cat.items@[
                                        m@[k0] as int
                                    ].name@,
                            decreases nt - t,
                        {
                            let id = m[t];
                            proof {
                                assert(in_match(cat.items@, cs@, m@[t as int] as int));
                            }
                            r.push(
                                DirEntry {
                                    name: cat.items[id].name.clone(),
                                    node: Node::File { cs: cs.duplicate(), item: id },
                                },
                            );
                            t = t + 1;
                        }
                        proof {
                            let es = entry_views(r@);
                            assert forall|k0: int|
                                0 <= k0 < es.len() implies node_item(es[k0].node) == m@[k0]
                                as int by {
                                assert(es[k0].node == (NodeV::File {
                                    cs: cs@,
                                    item: m@[k0] as int,
                                }));
                            };
                            assert forall|i: int|
                                in_match(cat.items@, cs@, i) implies exists|k: int|
                                0 <= k < es.len() && node_item(es[k].node) == i by {
                                assert(m@.contains(i as usize));
                                assert(cat.items.len() == cat.items@.len());
                                let t0 = choose|t0: int|
                                    0 <= t0 < m@.len() && m@[t0] == i as usize;
                                assert(node_item(es[t0].node) == i);
                            };
                            assert(file_listing_ok(cat.items@, cs@, es));
                        }
                    }
                    r
                },
                Option::Some(c) => {
                    let m = matching_items(cat, cs);
                    let vals = remaining_values(cat, cs, &m, c);
                    let mut r: Vec<DirEntry> = Vec::new();
                    let nk = vals.len();
                    let mut k: usize = 0;
                    while k < nk
                        invariant
                            cat.wf(),
                            match_vec(cat.items@, cs@, m@),
                            nk == vals@.len(),
                            k <= nk,
                            r@.len() == k,
                            strictly_sorted(name_seq(vals@)),
                            forall|x: Seq<char>|
                                name_seq(vals@).contains(x) ==> value_present(
                                    cat.items@,
                                    cs@,
                                    c@,
                                    x,
                                ),
                            forall|k0: int|
                                0 <= k0 < k ==> entry_views(r@)[k0].name == name_seq(
                                    vals@,
                                )[k0],
                            forall|k0: int|
                                0 <= k0 < k ==> resolve_spec(
                                    cat.items@,
                                    cs@,
                                    Option::Some(c@),
                                    entry_views(r@)[k0].name,
                                ) == Option::Some(entry_views(r@)[k0].node),
                        decreases nk - k,
                    {
                        proof {
                            assert(name_seq(vals@)[k as int] == vals@[k as int]@);
                            assert(name_seq(vals@).contains(vals@[k as int]@));
                            assert(value_present(cat.items@, cs@, c@, vals@[k as int]@));
                        }
                        let cs2 = cs.push_pair(c, &vals[k]);
                        proof {
                            let i = choose|i: int|
                                in_match(cat.items@, cs@, i) && crate::catalog::item_has_tag(
                                    cat.items@[i],
                                    c@,
                                    vals@[k as int]@,
                                );
                            assert forall|p: int|
                                0 <= p < cs2@.len() implies crate::catalog::item_has_tag(
                                cat.items@[i],
                                cs2@[p].0,
                                cs2@[p].1,
                            ) by {
                                if p < cs@.len() {
                                    assert(cs2@[p] == cs@[p]);
                                } else {
                                    assert(cs2@[p] == (c@, vals@[k as int]@));
                                }
                            };
                            assert(in_match(cat.items@, cs2@, i));
                        }
                        let m2 = matching_items(cat, &cs2);
                        let nd = if m2.len() == 1 {
                            let item = m2[0];
                            proof {
                                assert(in_match(cat.items@, cs2@, m2@[0] as int));
                                let ich = choose|i: int| in_match(cat.items@, cs2@, i);
                                assert(in_match(cat.items@, cs2@, ich));
                                assert(ich == item as int);
                            }
                            Node::File { cs: cs2, item }
                        } else {
                            Node::Dir { cs: cs2, pending: None }
                        };
                        let ghost ndv = nd@;
                        let ghost r_before = r@;
                        r.push(DirEntry { name: vals[k].clone(), node: nd });
                        proof {
                            let es = entry_views(r@);
                            assert(forall|k0: int|
                                0 <= k0 < k ==> es[k0] == entry_views(r_before)[k0]);
                            assert(es[k as int].name == vals@[k as int]@);
                            assert(es[k as int].node == ndv);
                            assert(any_match(cat.items@, cs2@));
                            assert(m2@.len() != 0);
                            if m2@.len() == 1 {
                                assert(unique_match(cat.items@, cs2@));
                                assert(resolve_spec(cat.items@, cs@, Option::Some(c@), vals@[k as int]@)
                                    == Option::Some(ndv));
                            } else {
                                assert(!unique_match(cat.items@, cs2@));
                                assert(resolve_spec(cat.items@, cs@, Option::Some(c@), vals@[k as int]@)
                                    == Option::Some(ndv));
                            }
                        }
                        k = k + 1;
                    }
                    proof {
                        let es = entry_views(r@);
                        assert(entry_names(es) =~= name_seq(vals@));
                        assert(val_listing_ok(cat.items@, cs@, c@, es));
                    }
                    r
                },
            }
        },
        Node::File { .. } => Vec::new(),
    }
}

/// Two ascending integer sequences with the same members are equal.
proof fn lemma_ascending_unique(a: Seq<int>, b: Seq<int>)
    requires
        forall|k1: int, k2: int| 0 <= k1 < k2 < a.len() ==> a[k1] < a[k2],
        forall|k1: int, k2: int| 0 <= k1 < k2 < b.len() ==> b[k1] < b[k2],
        forall|x: int| a.contains(x) <==> b.contains(x),
    ensures
        a == b,
    decreases a.len(),
{
    if a.len() == 0 {
        if b.len() > 0 {
            assert(b.contains(b[0]));
        }
        assert(a =~= b);
    } else {
        assert(a.contains(a[0]));
        assert(b.len() > 0);
        assert(b.contains(b[0]));
        assert(a.contains(b[0]));
        let kb = choose|kb: int| 0 <= kb < b.len() && b[kb] == a[0];
        let ka = choose|ka: int| 0 <= ka < a.len() && a[ka] == b[0];
        assert(0 <= kb < b.len() && b[kb] == a[0]);
        assert(0 <= ka < a.len() && a[ka] == b[0]);
        if kb != 0 && ka != 0 {
            assert(b[0] < b[kb]);
            assert(a[0] < a[ka]);
            assert(false);
        }
        assert(a[0] == b[0]);
        let at = a.drop_first();
        let bt = b.drop_first();
        assert forall|x: int| at.contains(x) implies bt.contains(x) by {
            lemma_ascending_tail(a, b, x);
        };
        assert forall|x: int| bt.contains(x) implies at.contains(x) by {
            lemma_ascending_tail(b, a, x);
        };
        lemma_ascending_unique(at, bt);
        assert(a =~= b) by {
            assert(at =~= bt);
            assert(forall|i: int| 1 <= i < a.len() ==> a[i] == at[i - 1] && b[i] == bt[i - 1]);
        };
    }
}

/// Helper: a member of one tail is a member of the other tail.
proof fn lemma_ascending_tail(a: Seq<int>, b: Seq<int>, x: int)
    requires
        forall|k1: int, k2: int| 0 <= k1 < k2 < a.len() ==> a[k1] < a[k2],
        forall|k1: int, k2: int| 0 <= k1 < k2 < b.len() ==> b[k1] < b[k2],
        forall|y: int| a.contains(y) <==> b.contains(y),
        a.len() > 0,
        b.len() > 0,
        a[0] == b[0],
        a.drop_first().contains(x),
    ensures
        b.drop_first().contains(x),
{
    let t = choose|t: int| 0 <= t < a.drop_first().len() && a.drop_first()[t] == x;
    assert(a[t + 1] == x);
    assert(a.contains(x));
    assert(a[0] < x);
    let u = choose|u: int| 0 <= u < b.len() && b[u] == x;
    assert(u != 0);
    assert(b.drop_first()[u - 1] == x);
}

/// Listing a directory is deterministic: any two entry sequences that
/// the listing contract admits for the same catalog and directory are
/// identical, so listing twice (with no catalog change between the
/// calls) yields identical ordered output.
pub proof fn lemma_listing_deterministic(
    items: Seq<Item>,
    nv: NodeV,
    e1: Seq<EntryV>,
    e2: Seq<EntryV>,
)
    requires
        listing_ok(items, nv, e1),
        listing_ok(items, nv, e2),
    ensures
        e1 == e2,
{
    match nv {
        NodeV::Dir { cs, pending: Option::None } => {
            if no_remaining(items, cs) {
                let ids1 = e1.map(|k: int, e: EntryV| node_item(e.node));
                let ids2 = e2.map(|k: int, e: EntryV| node_item(e.node));
                assert forall|x: int| ids1.contains(x) implies ids2.contains(x) by {
                    lemma_file_member(items, cs, e1, e2, x);
                };
                assert forall|x: int| ids2.contains(x) implies ids1.contains(x) by {
                    lemma_file_member(items, cs, e2, e1, x);
                };
                lemma_ascending_unique(ids1, ids2);
                assert(e1 =~= e2) by {
                    assert(ids1.len() == ids2.len());
                    assert forall|k: int| 0 <= k < e1.len() implies e1[k] == e2[k] by {
                        assert(ids1[k] == node_item(e1[k].node));
                        assert(ids2[k] == node_item(e2[k].node));
                        assert(node_item(e1[k].node) == node_item(e2[k].node));
                    };
                };
            } else {
                lemma_sorted_unique(entry_names(e1), entry_names(e2));
                assert(e1 =~= e2) by {
                    assert(entry_names(e1).len() == entry_names(e2).len());
                    assert forall|k: int| 0 <= k < e1.len() implies e1[k] == e2[k] by {
                        assert(e1[k].name == entry_names(e1)[k]);
                        assert(e2[k].name == entry_names(e2)[k]);
                    };
                };
            }
        },
        NodeV::Dir { cs, pending: Option::Some(c) } => {
            lemma_sorted_unique(entry_names(e1), entry_names(e2));
            assert(e1 =~= e2) by {
                assert(entry_names(e1).len() == entry_names(e2).len());
                assert forall|k: int| 0 <= k < e1.len() implies e1[k] == e2[k] by {
                    assert(e1[k].name == entry_names(e1)[k]);
                    assert(e2[k].name == entry_names(e2)[k]);
                    assert(resolve_spec(items, cs, Option::Some(c), e1[k].name)
                        == Option::Some(e1[k].node));
                    assert(resolve_spec(items, cs, Option::Some(c), e2[k].name)
                        == Option::Some(e2[k].node));
                };
            };
        },
        NodeV::File { .. } => {
        },
    }
}

/// Helper: an item listed by one file listing is listed by the other.
proof fn lemma_file_member(
    items: Seq<Item>,
    cs: Seq<(Seq<char>, Seq<char>)>,
    e1: Seq<EntryV>,
    e2: Seq<EntryV>,
    x: int,
)
    requires
        file_listing_ok(items, cs, e1),
        file_listing_ok(items, cs, e2),
        e1.map(|k: int, e: EntryV| node_item(e.node)).contains(x),
    ensures
        e2.map(|k: int, e: EntryV| node_item(e.node)).contains(x),
{
    let ids1 = e1.map(|k: int, e: EntryV| node_item(e.node));
    let ids2 = e2.map(|k: int, e: EntryV| node_item(e.node));
    let k = choose|k: int| 0 <= k < ids1.len() && ids1[k] == x;
    assert(node_item(e1[k].node) == x);
    assert(in_match(items, cs, x));
    let k2 = choose|k2: int| 0 <= k2 < e2.len() && node_item(e2[k2].node) == x;
    assert(ids2[k2] == x);
}

} // verus!
