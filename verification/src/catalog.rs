//! The item catalog.
//!
//! Items are loaded once, validated, and never mutated afterwards; an
//! item's identifier is its position in the catalog vector. Each item
//! carries a display name, the path and content length of its backing
//! file, and a tag map from facet category to one or more facet values.

use vstd::prelude::*;

verus! {

/// One catalog entry. `tags` maps each facet category name to the
/// values the item carries for it.
pub struct Item {
    pub name: String,
    pub destination: String,
    pub size: u64,
    pub tags: Vec<(String, Vec<String>)>,
}

/// The item carries value `v` under category `c`.
pub open spec fn item_has_tag(it: Item, c: Seq<char>, v: Seq<char>) -> bool {
    exists|j: int, k: int|
        0 <= j < it.tags@.len() && 0 <= k < it.tags@[j].1@.len() && it.tags@[j].0@ == c
            && it.tags@[j].1@[k]@ == v
}

/// The item carries category `c` at all.
pub open spec fn item_has_cat(it: Item, c: Seq<char>) -> bool {
    exists|j: int| 0 <= j < it.tags@.len() && it.tags@[j].0@ == c
}

/// A well-formed item: non-empty name and destination, at least one
/// category, every category named once and holding at least one value.
pub open spec fn valid_item(it: Item) -> bool {
    &&& it.name@.len() > 0
    &&& it.destination@.len() > 0
    &&& it.tags@.len() > 0
    &&& forall|j: int| 0 <= j < it.tags@.len() ==> it.tags@[j].1@.len() > 0
    &&& forall|j1: int, j2: int|
        0 <= j1 < j2 < it.tags@.len() ==> it.tags@[j1].0@ != it.tags@[j2].0@
}

/// The immutable catalog. Item identifiers are positions in `items`.
pub struct Catalog {
    pub items: Vec<Item>,
}

/// A malformed catalog entry, reported with the position of the first
/// offending item.
#[derive(Clone, Copy, PartialEq, Eq, Structural, Debug)]
pub struct LoadError {
    pub item: usize,
}

impl Catalog {
    /// Every item of the catalog is well formed.
    pub open spec fn wf(&self) -> bool {
        forall|i: int| 0 <= i < self.items@.len() ==> valid_item(self.items@[i])
    }

    /// Validates the loader's output and seals it as the catalog.
    /// Succeeds exactly when every item is well formed; otherwise
    /// reports the first malformed item.
    pub fn load(items: Vec<Item>) -> (r: Result<Catalog, LoadError>)
        ensures
            r is Ok <==> (forall|i: int| 0 <= i < items@.len() ==> valid_item(items@[i])),
            r matches Ok(c) ==> c.items@ == items@ && c.wf(),
            r matches Err(e) ==> (e.item as int) < items@.len() && !valid_item(
                items@[e.item as int],
            ) && (forall|i: int| 0 <= i < e.item ==> valid_item(items@[i])),
    {
        let n = items.len();
        let mut i: usize = 0;
        while i < n
            invariant
                n == items@.len(),
                i <= n,
                forall|t: int| 0 <= t < i ==> valid_item(items@[t]),
            decreases n - i,
        {
            if !item_valid(&items[i]) {
                return Err(LoadError { item: i });
            }
            i = i + 1;
        }
        Ok(Catalog { items })
    }
}

/// Checks well-formedness of a single item.
fn item_valid(it: &Item) -> (r: bool)
    ensures
        r == valid_item(*it),
{
    if it.name.as_str().is_empty() {
        return false;
    }
    if it.destination.as_str().is_empty() {
        return false;
    }
    let n = it.tags.len();
    if n == 0 {
        return false;
    }
    let mut j: usize = 0;
    while j < n
        invariant
            n == it.tags@.len(),
            j <= n,
            forall|t: int| 0 <= t < j ==> it.tags@[t].1@.len() > 0,
            forall|t1: int, t2: int| 0 <= t1 < t2 < j ==> it.tags@[t1].0@ != it.tags@[t2].0@,
        decreases n - j,
    {
        if it.tags[j].1.len() == 0 {
            return false;
        }
        let mut j1: usize = 0;
        while j1 < j
            invariant
                n == it.tags@.len(),
                j < n,
                j1 <= j,
                forall|t: int| 0 <= t < j1 ==> it.tags@[t].0@ != it.tags@[j as int].0@,
            decreases j - j1,
        {
            if it.tags[j1].0 == it.tags[j].0 {
                return false;
            }
            j1 = j1 + 1;
        }
        j = j + 1;
    }
    true
}

} // verus!
