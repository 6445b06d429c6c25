//! Constraint sets and matching.
//!
//! A constraint set is the ordered conjunction of `category = value`
//! selections accumulated along a path from the mount root. An item
//! matches a constraint set when it carries every selected pair; the
//! empty constraint set matches every item.

use vstd::prelude::*;
use crate::catalog::{Catalog, Item, item_has_tag};

verus! {

/// The ordered conjunction of facet selections along a path.
pub struct ConstraintSet {
    pub pairs: Vec<(String, String)>,
}

impl View for ConstraintSet {
    type V = Seq<(Seq<char>, Seq<char>)>;

    open spec fn view(&self) -> Seq<(Seq<char>, Seq<char>)> {
        self.pairs@.map(|i: int, p: (String, String)| (p.0@, p.1@))
    }
}

/// The constraint set already selects a value for category `c`.
pub open spec fn cat_fixed(cs: Seq<(Seq<char>, Seq<char>)>, c: Seq<char>) -> bool {
    exists|i: int| 0 <= i < cs.len() && cs[i].0 == c
}

/// The item satisfies every constraint of the set.
pub open spec fn matches(it: Item, cs: Seq<(Seq<char>, Seq<char>)>) -> bool {
    forall|i: int| 0 <= i < cs.len() ==> item_has_tag(it, cs[i].0, cs[i].1)
}

/// Item `i` exists and satisfies the constraint set.
pub open spec fn in_match(items: Seq<Item>, cs: Seq<(Seq<char>, Seq<char>)>, i: int) -> bool {
    0 <= i < items.len() && matches(items[i], cs)
}

/// The set of identifiers of matching items.
pub open spec fn match_set(items: Seq<Item>, cs: Seq<(Seq<char>, Seq<char>)>) -> Set<int> {
    Set::new(|i: int| in_match(items, cs, i))
}

/// Some item matches.
pub open spec fn any_match(items: Seq<Item>, cs: Seq<(Seq<char>, Seq<char>)>) -> bool {
    exists|i: int| in_match(items, cs, i)
}

/// Exactly one item matches.
pub open spec fn unique_match(items: Seq<Item>, cs: Seq<(Seq<char>, Seq<char>)>) -> bool {
    any_match(items, cs) && (forall|i1: int, i2: int|
        in_match(items, cs, i1) && in_match(items, cs, i2) ==> i1 == i2)
}

impl ConstraintSet {
    /// The root constraint set: no selection yet.
    pub fn empty() -> (r: ConstraintSet)
        ensures
            r@ == Seq::<(Seq<char>, Seq<char>)>::empty(),
    {
        let r = ConstraintSet { pairs: Vec::new() };
        proof {
            assert(r@ =~= Seq::<(Seq<char>, Seq<char>)>::empty());
        }
        r
    }

    /// A copy of this set with `category = value` appended.
    pub fn push_pair(&self, c: &String, v: &String) -> (r: ConstraintSet)
        ensures
            r@ == self@.push((c@, v@)),
    {
        let mut pairs: Vec<(String, String)> = Vec::new();
        let n = self.pairs.len();
        let mut i: usize = 0;
        while i < n
            invariant
                n == self.pairs@.len(),
                i <= n,
                pairs@.len() == i,
                forall|t: int|
                    0 <= t < i ==> pairs@[t].0@ == self.pairs@[t].0@ && pairs@[t].1@
                        == self.pairs@[t].1@,
            decreases n - i,
        {
            pairs.push((self.pairs[i].0.clone(), self.pairs[i].1.clone()));
            i = i + 1;
        }
        pairs.push((c.clone(), v.clone()));
        let r = ConstraintSet { pairs };
        proof {
            assert(r@ =~= self@.push((c@, v@)));
        }
        r
    }

    /// Whether this set already selects a value for category `c`.
    pub fn fixes(&self, c: &String) -> (r: bool)
        ensures
            r == cat_fixed(self@, c@),
    {
        let n = self.pairs.len();
        let mut i: usize = 0;
        while i < n
            invariant
                n == self.pairs@.len(),
                i <= n,
                forall|t: int| 0 <= t < i ==> self@[t].0 != c@,
            decreases n - i,
        {
            if self.pairs[i].0 == *c {
                proof {
                    assert(self@[i as int].0 == c@);
                }
                return true;
            }
            i = i + 1;
        }
        false
    }
}

/// Whether the item carries value `v` under category `c`.
pub fn has_tag(it: &Item, c: &String, v: &String) -> (r: bool)
    ensures
        r == item_has_tag(*it, c@, v@),
{
    let n = it.tags.len();
    let mut j: usize = 0;
    while j < n
        invariant
            n == it.tags@.len(),
            j <= n,
            forall|j0: int, k0: int|
                0 <= j0 < j && 0 <= k0 < it.tags@[j0].1@.len() ==> !(it.tags@[j0].0@ == c@
                    && it.tags@[j0].1@[k0]@ == v@),
        decreases n - j,
    {
        if it.tags[j].0 == *c {
            let m = it.tags[j].1.len();
            let mut k: usize = 0;
            while k < m
                invariant
                    n == it.tags@.len(),
                    j < n,
                    m == it.tags@[j as int].1@.len(),
                    k <= m,
                    it.tags@[j as int].0@ == c@,
                    forall|k0: int| 0 <= k0 < k ==> it.tags@[j as int].1@[k0]@ != v@,
                decreases m - k,
            {
                if it.tags[j].1[k] == *v {
                    proof {
                        assert(it.tags@[j as int].1@[k as int]@ == v@);
                    }
                    return true;
                }
                k = k + 1;
            }
        }
        j = j + 1;
    }
    false
}

/// Whether the item satisfies every constraint of the set.
pub fn item_matches(it: &Item, cs: &ConstraintSet) -> (r: bool)
    ensures
        r == matches(*it, cs@),
{
    let n = cs.pairs.len();
    let mut i: usize = 0;
    while i < n
        invariant
            n == cs.pairs@.len(),
            i <= n,
            forall|t: int| 0 <= t < i ==> item_has_tag(*it, cs@[t].0, cs@[t].1),
        decreases n - i,
    {
        if !has_tag(it, &cs.pairs[i].0, &cs.pairs[i].1) {
            proof {
                assert(!item_has_tag(*it, cs@[i as int].0, cs@[i as int].1));
            }
            return false;
        }
        i = i + 1;
    }
    true
}

/// The vector `m` lists exactly the matching item identifiers, in
/// ascending order.
pub open spec fn match_vec(
    items: Seq<Item>,
    cs: Seq<(Seq<char>, Seq<char>)>,
    m: Seq<usize>,
) -> bool {
    &&& forall|t1: int, t2: int| 0 <= t1 < t2 < m.len() ==> m[t1] < m[t2]
    &&& forall|t: int| 0 <= t < m.len() ==> in_match(items, cs, m[t] as int)
    &&& forall|i: int| in_match(items, cs, i) ==> m.contains(i as usize)
}

/// The identifiers of all items matching the constraint set, in
/// ascending order.
pub fn matching_items(cat: &Catalog, cs: &ConstraintSet) -> (r: Vec<usize>)
    ensures
        match_vec(cat.items@, cs@, r@),
        forall|t1: int, t2: int| 0 <= t1 < t2 < r@.len() ==> r@[t1] < r@[t2],
        forall|t: int| 0 <= t < r@.len() ==> in_match(cat.items@, cs@, r@[t] as int),
        forall|i: int| in_match(cat.items@, cs@, i) ==> r@.contains(i as usize),
        (r@.len() == 0) <==> !any_match(cat.items@, cs@),
        (r@.len() == 1) <==> unique_match(cat.items@, cs@),
{
    let n = cat.items.len();
    let mut r: Vec<usize> = Vec::new();
    let mut i: usize = 0;
    while i < n
        invariant
            n == cat.items@.len(),
            i <= n,
            forall|t1: int, t2: int| 0 <= t1 < t2 < r@.len() ==> r@[t1] < r@[t2],
            forall|t: int| 0 <= t < r@.len() ==> (r@[t] as int) < i,
            forall|t: int| 0 <= t < r@.len() ==> in_match(cat.items@, cs@, r@[t] as int),
            forall|i0: int| 0 <= i0 < i && in_match(cat.items@, cs@, i0) ==> r@.contains(
                i0 as usize,
            ),
        decreases n - i,
    {
        if item_matches(&cat.items[i], cs) {
            let ghost prev = r@;
            r.push(i);
            proof {
                assert(r@[r@.len() - 1] == i);
                assert(forall|t: int| 0 <= t < prev.len() ==> r@[t] == prev[t]);
                assert forall|i0: int|
                    0 <= i0 < i + 1 && in_match(cat.items@, cs@, i0) implies r@.contains(
                    i0 as usize,
                ) by {
                    if i0 < i {
                        let t = choose|t: int| 0 <= t < prev.len() && prev[t] == i0 as usize;
                        assert(r@[t] == i0 as usize);
                    } else {
                        assert(r@[r@.len() - 1] == i0 as usize);
                    }
                };
            }
        }
        i = i + 1;
    }
    proof {
        if r@.len() == 0 {
            assert forall|i0: int| !in_match(cat.items@, cs@, i0) by {
                if in_match(cat.items@, cs@, i0) {
                    assert(r@.contains(i0 as usize));
                }
            };
        } else {
            assert(in_match(cat.items@, cs@, r@[0] as int));
        }
        if r@.len() == 1 {
            assert forall|i1: int, i2: int|
                in_match(cat.items@, cs@, i1) && in_match(cat.items@, cs@, i2) implies i1
                == i2 by {
                assert(r@.contains(i1 as usize));
                assert(r@.contains(i2 as usize));
                let t1 = choose|t: int| 0 <= t < r@.len() && r@[t] == i1 as usize;
                let t2 = choose|t: int| 0 <= t < r@.len() && r@[t] == i2 as usize;
                assert(t1 == 0 && t2 == 0);
            };
        }
        if r@.len() >= 2 {
            assert(r@[0] < r@[1]);
            assert(in_match(cat.items@, cs@, r@[0] as int));
            assert(in_match(cat.items@, cs@, r@[1] as int));
            assert(!unique_match(cat.items@, cs@));
        }
    }
    r
}

/// The matching items of a constraint set are the intersection of the
/// matching items of its single constraints; the empty set matches
/// every item.
pub proof fn lemma_match_compositionality(items: Seq<Item>, cs: Seq<(Seq<char>, Seq<char>)>)
    ensures
        match_set(items, cs) == Set::<int>::new(
            |i: int|
                0 <= i < items.len() && forall|p: int|
                    0 <= p < cs.len() ==> in_match(items, seq![cs[p]], i),
        ),
        cs.len() == 0 ==> match_set(items, cs) == Set::<int>::new(
            |i: int| 0 <= i < items.len(),
        ),
{
    let rhs = Set::<int>::new(
        |i: int|
            0 <= i < items.len() && forall|p: int|
                0 <= p < cs.len() ==> in_match(items, seq![cs[p]], i),
    );
    assert forall|i: int| match_set(items, cs).contains(i) implies rhs.contains(i) by {
        assert forall|p: int| 0 <= p < cs.len() implies in_match(items, seq![cs[p]], i) by {
            assert(item_has_tag(items[i], cs[p].0, cs[p].1));
            assert(seq![cs[p]][0] == cs[p]);
            assert(matches(items[i], seq![cs[p]]));
        };
    };
    assert forall|i: int| rhs.contains(i) implies match_set(items, cs).contains(i) by {
        assert forall|p: int| 0 <= p < cs.len() implies item_has_tag(items[i], cs[p].0, cs[p].1) by {
            assert(in_match(items, seq![cs[p]], i));
            assert(seq![cs[p]][0] == cs[p]);
            assert(item_has_tag(items[i], seq![cs[p]][0].0, seq![cs[p]][0].1));
        };
        assert(matches(items[i], cs));
    };
    assert(match_set(items, cs) =~= rhs);
    if cs.len() == 0 {
        assert(match_set(items, cs) =~= Set::<int>::new(|i: int| 0 <= i < items.len()));
    }
}

} // verus!
