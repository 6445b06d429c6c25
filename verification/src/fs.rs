//! The request adapter.
//!
//! The four inbound operations — lookup, get-attributes, read and
//! list-directory — are served here against the catalog, the resolver
//! and the inode allocator, on plain values only. A mount loop owns one
//! `FacetFs`, decodes kernel requests into these calls and encodes the
//! results back; reads of backing file content are delegated to the
//! caller through a `ReadPlan`.

use vstd::prelude::*;
use vstd::string::StringExecFns;
use crate::catalog::{Catalog, Item};
use crate::constraint::{in_match, unique_match};
use crate::node::{
    Node,
    NodeV,
    node_cs,
    node_pending,
    resolve_spec,
    resolve,
    parent_of,
    parent_spec,
    root_nodev,
    dup_node,
    first_named,
};
use crate::inodes::{InodeTable, interned, distinct, lemma_intern_stable, lemma_intern_extends};
use crate::listing::{DirEntry, EntryV, entry_views, listing_ok, dir_entries};

verus! {

/// "No such entry": an unknown identifier or an unresolvable segment.
#[derive(Clone, Copy, PartialEq, Eq, Structural, Debug)]
pub enum FsError {
    NotFound,
}

/// Synthesized attributes of a node.
#[derive(Clone, Copy, PartialEq, Eq, Structural, Debug)]
pub struct Attr {
    pub ino: u64,
    pub size: u64,
    pub is_dir: bool,
}

/// A granted read: which backing file to read, and the byte range,
/// clamped to the file's content length.
pub struct ReadPlan {
    pub destination: String,
    pub offset: u64,
    pub len: u64,
}

/// One row of a directory listing reply.
pub struct ReaddirEntry {
    pub ino: u64,
    pub name: String,
    pub is_dir: bool,
}

/// The identity of a listing row.
pub struct ReaddirEntryV {
    pub ino: u64,
    pub name: Seq<char>,
    pub is_dir: bool,
}

impl View for ReaddirEntry {
    type V = ReaddirEntryV;

    open spec fn view(&self) -> ReaddirEntryV {
        ReaddirEntryV { ino: self.ino, name: self.name@, is_dir: self.is_dir }
    }
}

/// The identities of the rows of a reply.
pub open spec fn row_views(rows: Seq<ReaddirEntry>) -> Seq<ReaddirEntryV> {
    rows.map(|k: int, e: ReaddirEntry| e@)
}

/// The attributes a node identity is served with.
pub open spec fn attr_of(items: Seq<Item>, nv: NodeV, ino: u64) -> Attr {
    match nv {
        NodeV::Dir { .. } => Attr { ino, size: 0, is_dir: true },
        NodeV::File { item, .. } => Attr { ino, size: items[item].size, is_dir: false },
    }
}

/// A node identity meaningful for this catalog.
pub open spec fn node_ok(items: Seq<Item>, nv: NodeV) -> bool {
    match nv {
        NodeV::File { item, .. } => 0 <= item < items.len(),
        NodeV::Dir { .. } => true,
    }
}

/// The filesystem instance: the immutable catalog and the allocator's
/// append-only node table.
pub struct FacetFs {
    catalog: Catalog,
    table: InodeTable,
}

/// What one lookup call replies and how it changes the node table.
pub open spec fn lookup_post(
    items: Seq<Item>,
    t0: Seq<NodeV>,
    t1: Seq<NodeV>,
    parent: u64,
    name: Seq<char>,
    r: Result<Attr, FsError>,
) -> bool {
    if !(1 <= parent as int <= t0.len()) || !(t0[parent as int - 1] is Dir) {
        r == Result::<Attr, FsError>::Err(FsError::NotFound) && t1 == t0
    } else {
        let pv = t0[parent as int - 1];
        if name == "."@ {
            r == Result::<Attr, FsError>::Ok(attr_of(items, pv, parent)) && t1 == t0
        } else if name == ".."@ {
            r matches Result::Ok(a) && interned(t0, t1, parent_spec(pv), a.ino) && a == attr_of(
                items,
                parent_spec(pv),
                a.ino,
            )
        } else {
            match resolve_spec(items, node_cs(pv), node_pending(pv), name) {
                Option::Some(nv) => r matches Result::Ok(a) && interned(t0, t1, nv, a.ino)
                    && a == attr_of(items, nv, a.ino),
                Option::None => r == Result::<Attr, FsError>::Err(FsError::NotFound) && t1
                    == t0,
            }
        }
    }
}

/// The ".", ".." and child entries of a directory, in reply order.
pub open spec fn full_listing(nv: NodeV, es: Seq<EntryV>) -> Seq<EntryV> {
    seq![
        EntryV { name: "."@, node: nv },
        EntryV { name: ".."@, node: parent_spec(nv) },
    ] + es
}

/// The rows reply a suffix of the full listing, each row carrying the
/// identifier its node holds in the table `t`.
pub open spec fn out_matches(
    t: Seq<NodeV>,
    fl: Seq<EntryV>,
    offset: int,
    out: Seq<ReaddirEntryV>,
) -> bool {
    &&& out.len() == if 0 <= offset <= fl.len() {
        fl.len() - offset
    } else {
        0
    }
    &&& forall|j: int|
        0 <= j < out.len() ==> out[j].name == fl[offset + j].name && out[j].is_dir == (fl[
            offset + j
        ].node is Dir) && 1 <= out[j].ino as int <= t.len() && t[out[j].ino as int - 1] == fl[
            offset + j
        ].node
}

/// Attributes for an in-range node.
fn attr_exec(cat: &Catalog, n: &Node, ino: u64) -> (a: Attr)
    requires
        node_ok(cat.items@, n@),
    ensures
        a == attr_of(cat.items@, n@, ino),
{
    match n {
        Node::Dir { .. } => Attr { ino, size: 0, is_dir: true },
        Node::File { item, .. } => Attr { ino, size: cat.items[*item].size, is_dir: false },
    }
}

impl FacetFs {
    /// The catalog's items.
    pub closed spec fn items(&self) -> Seq<Item> {
        self.catalog.items@
    }

    /// The node identities interned so far, in allocation order;
    /// identifier `k` denotes position `k - 1`.
    pub closed spec fn nodes(&self) -> Seq<NodeV> {
        self.table@
    }

    /// Catalog and table well-formed, and every interned node
    /// meaningful for the catalog.
    pub closed spec fn wf(&self) -> bool {
        &&& self.catalog.wf()
        &&& self.table.wf()
        &&& forall|k: int| 0 <= k < self.table@.len() ==> node_ok(self.catalog.items@, self.table@[k])
    }

    /// The table is distinct and rooted (exposed for callers' proofs).
    pub proof fn lemma_wf_table(&self)
        requires
            self.wf(),
        ensures
            distinct(self.nodes()),
            self.nodes().len() >= 1,
            self.nodes()[0] == root_nodev(),
            forall|k: int| 0 <= k < self.nodes().len() ==> node_ok(self.items(), self.nodes()[k]),
    {
    }

    /// Mounts a loaded catalog: the root directory is identifier 1.
    pub fn new(catalog: Catalog) -> (r: FacetFs)
        requires
            catalog.wf(),
        ensures
            r.wf(),
            r.items() == catalog.items@,
            r.nodes().len() == 1,
            r.nodes()[0] == root_nodev(),
    {
        FacetFs { catalog, table: InodeTable::new() }
    }

    /// Serves get-attributes: the attributes of a known identifier,
    /// "no such entry" otherwise.
    pub fn getattr(&self, ino: u64) -> (r: Result<Attr, FsError>)
        requires
            self.wf(),
        ensures
            1 <= ino as int <= self.nodes().len() ==> r == Result::<Attr, FsError>::Ok(
                attr_of(self.items(), self.nodes()[ino as int - 1], ino),
            ),
            !(1 <= ino as int <= self.nodes().len()) ==> r == Result::<Attr, FsError>::Err(
                FsError::NotFound,
            ),
    {
        match self.table.get(ino) {
            Option::Some(n) => Ok(attr_exec(&self.catalog, n, ino)),
            Option::None => Err(FsError::NotFound),
        }
    }

    /// Serves read: grants a read of the backing file of a file node,
    /// with the byte range clamped to the content length; "no such
    /// entry" for unknown identifiers and for directories.
    pub fn read_plan(&self, ino: u64, offset: u64, count: u32) -> (r: Result<
        ReadPlan,
        FsError,
    >)
        requires
            self.wf(),
        ensures
            ({
                let valid = 1 <= ino as int <= self.nodes().len() && self.nodes()[ino as int
                    - 1] is File;
                match r {
                    Result::Ok(p) => valid && ({
                        let nv = self.nodes()[ino as int - 1];
                        let sz = self.items()[crate::listing::node_item(nv)].size;
                        let start = if offset as int <= sz as int {
                            offset as int
                        } else {
                            sz as int
                        };
                        &&& p.destination@ == self.items()[crate::listing::node_item(
                            nv,
                        )].destination@
                        &&& p.offset as int == start
                        &&& p.len as int == (if count as int <= sz as int - start {
                            count as int
                        } else {
                            sz as int - start
                        })
                    }),
                    Result::Err(e) => !valid && e == FsError::NotFound,
                }
            }),
    {
        match self.table.get(ino) {
            Option::Some(n) => {
                match n {
                    Node::File { item, .. } => {
                        let sz = self.catalog.items[*item].size;
                        let start = if offset <= sz {
                            offset
                        } else {
                            sz
                        };
                        let remaining = sz - start;
                        let len = if (count as u64) <= remaining {
                            count as u64
                        } else {
                            remaining
                        };
                        Ok(
                            ReadPlan {
                                destination: self.catalog.items[*item].destination.clone(),
                                offset: start,
                                len,
                            },
                        )
                    },
                    Node::Dir { .. } => Err(FsError::NotFound),
                }
            },
            Option::None => Err(FsError::NotFound),
        }
    }

    /// Serves lookup: resolves `name` under the parent identifier's
    /// directory, interns the resulting node, and replies its
    /// attributes; "." is the directory itself and ".." its parent;
    /// "no such entry" when the identifier is unknown, names a file, or
    /// the segment resolves to nothing.
    pub fn lookup(&mut self, parent: u64, name: &String) -> (r: Result<Attr, FsError>)
        requires
            old(self).wf(),
        ensures
            final(self).wf(),
            final(self).items() == old(self).items(),
            old(self).nodes().len() <= final(self).nodes().len(),
            forall|k: int|
                0 <= k < old(self).nodes().len() ==> final(self).nodes()[k] == old(
                    self,
                ).nodes()[k],
            lookup_post(
                old(self).items(),
                old(self).nodes(),
                final(self).nodes(),
                parent,
                name@,
                r,
            ),
    {
        let n = match self.table.get(parent) {
            Option::Some(nd) => dup_node(nd),
            Option::None => {
                return Err(FsError::NotFound);
            },
        };
        match &n {
            Node::File { .. } => Err(FsError::NotFound),
            Node::Dir { .. } => {
                let dot = String::from_str(".");
                let dotdot = String::from_str("..");
                if *name == dot {
                    proof {
                        assert(name@ == "."@);
                    }
                    return Ok(attr_exec(&self.catalog, &n, parent));
                }
                if *name == dotdot {
                    proof {
                        assert(name@ == ".."@);
                        assert(name@ != "."@) by {
                            reveal_strlit(".");
                            reveal_strlit("..");
                        };
                    }
                    let p = parent_of(&n);
                    let ghost pv = p@;
                    let ino = self.table.intern(p);
                    proof {
                        assert(pv is Dir);
                        assert(attr_of(self.items(), pv, ino) == (Attr {
                            ino,
                            size: 0,
                            is_dir: true,
                        }));
                    }
                    return Ok(Attr { ino, size: 0, is_dir: true });
                }
                proof {
                    assert(name@ != "."@ && name@ != ".."@);
                }
                match resolve(&self.catalog, &n, name) {
                    Option::Some(child) => {
                        let ghost cv = child@;
                        proof {
                            assert(node_ok(self.items(), cv)) by {
                                if cv is File {
                                    match resolve_spec(
                                        self.items(),
                                        node_cs(n@),
                                        node_pending(n@),
                                        name@,
                                    ) {
                                        Option::Some(nv) => {
                                            assert(nv == cv);
                                            lemma_resolved_node_ok(
                                                self.items(),
                                                node_cs(n@),
                                                node_pending(n@),
                                                name@,
                                                nv,
                                            );
                                        },
                                        Option::None => {
                                            assert(false);
                                        },
                                    }
                                }
                            };
                        }
                        let a = attr_exec(&self.catalog, &child, 0);
                        let ino = self.table.intern(child);
                        Ok(Attr { ino, size: a.size, is_dir: a.is_dir })
                    },
                    Option::None => Err(FsError::NotFound),
                }
            },
        }
    }
}

/// How many positions of a listing of length-position `upto` lie at or
/// beyond `offset`.
pub open spec fn emitted(offset: int, upto: int) -> int {
    if offset <= upto {
        upto - offset
    } else {
        0
    }
}

impl FacetFs {
    /// Serves list-directory: replies the ".", ".." and child rows of
    /// the directory, restartable from any `offset` into that fixed
    /// order, interning each replied node; "no such entry" when the
    /// identifier is unknown or names a file.
    pub fn readdir(&mut self, ino: u64, offset: u64) -> (r: Result<Vec<ReaddirEntry>, FsError>)
        requires
            old(self).wf(),
        ensures
            final(self).wf(),
            final(self).items() == old(self).items(),
            old(self).nodes().len() <= final(self).nodes().len(),
            forall|k: int|
                0 <= k < old(self).nodes().len() ==> final(self).nodes()[k] == old(
                    self,
                ).nodes()[k],
            ({
                let valid = 1 <= ino as int <= old(self).nodes().len() && old(self).nodes()[
                    ino as int - 1
                ] is Dir;
                match r {
                    Result::Ok(rows) => valid && (exists|es: Seq<EntryV>|
                        #[trigger] listing_ok(old(self).items(), old(self).nodes()[ino as int - 1], es)
                            && out_matches(
                            final(self).nodes(),
                            full_listing(old(self).nodes()[ino as int - 1], es),
                            offset as int,
                            row_views(rows@),
                        )),
                    Result::Err(e) => !valid && e == FsError::NotFound && final(self).nodes()
                        == old(self).nodes(),
                }
            }),
    {
        let n = match self.table.get(ino) {
            Option::Some(nd) => dup_node(nd),
            Option::None => {
                return Err(FsError::NotFound);
            },
        };
        match &n {
            Node::File { .. } => Err(FsError::NotFound),
            Node::Dir { .. } => {
                let children = dir_entries(&self.catalog, &n);
                let ghost nv = n@;
                let ghost es = entry_views(children@);
                let ghost fl = full_listing(nv, es);
                proof {
                    assert(fl.len() == 2 + es.len());
                    assert(fl[0] == (EntryV { name: "."@, node: nv }));
                    assert(fl[1] == (EntryV { name: ".."@, node: parent_spec(nv) }));
                    assert(forall|k0: int| 0 <= k0 < es.len() ==> fl[2 + k0] == es[k0]);
                }
                let mut out: Vec<ReaddirEntry> = Vec::new();
                if offset < 1 {
                    out.push(ReaddirEntry { ino, name: String::from_str("."), is_dir: true });
                }
                if offset < 2 {
                    let p = parent_of(&n);
                    let ghost pv = p@;
                    let ghost t_before = self.nodes();
                    let pino = self.table.intern(p);
                    proof {
                        lemma_intern_extends(t_before, self.nodes(), pv, pino);
                    }
                    out.push(
                        ReaddirEntry { ino: pino, name: String::from_str(".."), is_dir: true },
                    );
                }
                proof {
                    assert(row_views(out@).len() == emitted(offset as int, 2));
                }
                let nc = children.len();
                let mut k: usize = 0;
                while k < nc
                    invariant
                        old(self).wf(),
                        self.wf(),
                        self.items() == old(self).items(),
                        old(self).nodes().len() <= self.nodes().len(),
                        forall|k0: int|
                            0 <= k0 < old(self).nodes().len() ==> self.nodes()[k0] == old(
                                self,
                            ).nodes()[k0],
                        nc == children@.len(),
                        k <= nc,
                        es == entry_views(children@),
                        fl == full_listing(nv, es),
                        fl.len() == 2 + nc,
                        forall|k0: int| 0 <= k0 < es.len() ==> fl[2 + k0] == es[k0],
                        listing_ok(self.items(), nv, es),
                        row_views(out@).len() == emitted(offset as int, 2 + k),
                        forall|j: int|
                            0 <= j < row_views(out@).len() ==> row_views(out@)[j].name == fl[
                                offset as int + j
                            ].name && row_views(out@)[j].is_dir == (fl[offset as int
                                + j].node is Dir) && 1 <= row_views(out@)[j].ino as int
                                <= self.nodes().len() && self.nodes()[row_views(out@)[j].ino
                                as int - 1] == fl[offset as int + j].node,
                    decreases nc - k,
                {
                    if offset <= 2 || (k as u64) >= offset - 2 {
                        proof {
                            assert((k as u64) + 2 >= offset);
                        }
                        let ghost ev = es[k as int];
                        proof {
                            assert(node_ok(self.items(), ev.node)) by {
                                match nv {
                                    NodeV::Dir { cs, pending: Option::None } => {
                                        if crate::facets::no_remaining(self.items(), cs) {
                                            assert(in_match(
                                                self.items(),
                                                cs,
                                                crate::listing::node_item(ev.node),
                                            ));
                                        }
                                    },
                                    NodeV::Dir { cs, pending: Option::Some(c) } => {
                                        lemma_resolved_node_ok(
                                            self.items(),
                                            cs,
                                            Option::Some(c),
                                            ev.name,
                                            ev.node,
                                        );
                                    },
                                    NodeV::File { .. } => {
                                        assert(false);
                                    },
                                }
                            };
                        }
                        let nd = dup_node(&children[k].node);
                        let ghost t_before = self.nodes();
                        let ghost rows_before = out@;
                        let cino = self.table.intern(nd);
                        proof {
                            lemma_intern_extends(t_before, self.nodes(), ev.node, cino);
                        }
                        let isd = match &children[k].node {
                            Node::Dir { .. } => true,
                            Node::File { .. } => false,
                        };
                        out.push(
                            ReaddirEntry { ino: cino, name: children[k].name.clone(), is_dir: isd },
                        );
                        proof {
                            let rows = row_views(out@);
                            assert(forall|j: int|
                                0 <= j < rows_before.len() ==> rows[j] == row_views(
                                    rows_before,
                                )[j]);
                            assert(rows[rows.len() - 1].name == ev.name);
                            assert(offset as int + (rows.len() - 1) == 2 + k);
                            assert(self.nodes()[cino as int - 1] == ev.node);
                        }
                    }
                    k = k + 1;
                }
                proof {
                    assert(row_views(out@).len() == emitted(offset as int, fl.len() as int));
                    assert(out_matches(self.nodes(), fl, offset as int, row_views(out@)));
                }
                Ok(out)
            },
        }
    }
}

/// A node handed back by the resolver is meaningful for the catalog.
proof fn lemma_resolved_node_ok(
    items: Seq<Item>,
    cs: Seq<(Seq<char>, Seq<char>)>,
    pending: Option<Seq<char>>,
    name: Seq<char>,
    nv: NodeV,
)
    requires
        resolve_spec(items, cs, pending, name) == Option::Some(nv),
    ensures
        node_ok(items, nv),
{
    match pending {
        Option::Some(c) => {
            let cs2 = cs.push((c, name));
            if unique_match(items, cs2) {
                let i = choose|i: int| in_match(items, cs2, i);
                assert(in_match(items, cs2, i));
            }
        },
        Option::None => {
            match first_named(items, cs, name, 0) {
                Option::Some(w) => {
                    crate::node::lemma_first_named_valid(items, cs, name, 0, w);
                },
                Option::None => {
                },
            }
        },
    }
}

/// Replying a listing twice is stable to the row: with no catalog
/// change, the rows of a repeated list-directory call carry the same
/// names, kinds and identifiers, even though the table may have grown
/// between the calls.
pub proof fn lemma_rows_stable(
    t1: Seq<NodeV>,
    t2: Seq<NodeV>,
    fl: Seq<EntryV>,
    offset: int,
    o1: Seq<ReaddirEntryV>,
    o2: Seq<ReaddirEntryV>,
)
    requires
        distinct(t2),
        t1.len() <= t2.len(),
        forall|k: int| 0 <= k < t1.len() ==> t2[k] == t1[k],
        out_matches(t1, fl, offset, o1),
        out_matches(t2, fl, offset, o2),
    ensures
        o1 == o2,
{
    assert forall|j: int| 0 <= j < o1.len() implies o1[j] == o2[j] by {
        let e = fl[offset + j];
        assert(t1[o1[j].ino as int - 1] == e.node);
        assert(t2[o1[j].ino as int - 1] == e.node);
        assert(t2[o2[j].ino as int - 1] == e.node);
        if o1[j].ino != o2[j].ino {
            assert(t2[o1[j].ino as int - 1] == t2[o2[j].ino as int - 1]);
            assert(false);
        }
    };
    assert(o1 =~= o2);
}

/// Interning the node a lookup resolved is stable: a second lookup of
/// the same name under the same parent — the allocator serializes the
/// two interns, in either order — replies the same identifier and the
/// same attributes, and leaves the table as the first call left it.
pub proof fn lemma_lookup_stable(
    items: Seq<Item>,
    t0: Seq<NodeV>,
    t1: Seq<NodeV>,
    t2: Seq<NodeV>,
    parent: u64,
    name: Seq<char>,
    r1: Result<Attr, FsError>,
    r2: Result<Attr, FsError>,
)
    requires
        distinct(t1),
        lookup_post(items, t0, t1, parent, name, r1),
        lookup_post(items, t1, t2, parent, name, r2),
        1 <= parent as int <= t0.len(),
        t0[parent as int - 1] is Dir,
        name != "."@,
        name != ".."@,
        resolve_spec(
            items,
            node_cs(t0[parent as int - 1]),
            node_pending(t0[parent as int - 1]),
            name,
        ) is Some,
    ensures
        r2 == r1,
        t2 == t1,
{
    let pv = t0[parent as int - 1];
    let nv = resolve_spec(items, node_cs(pv), node_pending(pv), name)->Some_0;
    let a1 = r1->Ok_0;
    assert(interned(t0, t1, nv, a1.ino));
    lemma_intern_extends(t0, t1, nv, a1.ino);
    assert(t1[parent as int - 1] == pv);
    let a2 = r2->Ok_0;
    assert(interned(t1, t2, nv, a2.ino));
    lemma_intern_stable(t0, t1, t2, nv, a1.ino, a2.ino);
}

} // verus!
