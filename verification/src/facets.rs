//! Remaining facet choices under a constraint set.
//!
//! A category is still worth exposing as a subdirectory exactly when it
//! is not yet fixed by the constraint set and still discriminates among
//! the matching items: some value of it is carried by one matching item
//! and missing from another. A category all of whose offered values
//! keep the match set unchanged would open a degenerate single-branch
//! directory and is skipped.

use vstd::prelude::*;
use vstd::set_lib::lemma_len_subset;
use vstd::set_lib::set_int_range;
use vstd::set_lib::lemma_int_range;
use crate::catalog::{Catalog, Item, item_has_tag, item_has_cat, valid_item};
use crate::constraint::{
    ConstraintSet,
    cat_fixed,
    in_match,
    match_set,
    match_vec,
    any_match,
};
use crate::strorder::{name_seq, strictly_sorted, sorted_insert};

verus! {

/// Some matching item carries value `v` under category `c`.
pub open spec fn value_present(
    items: Seq<Item>,
    cs: Seq<(Seq<char>, Seq<char>)>,
    c: Seq<char>,
    v: Seq<char>,
) -> bool {
    exists|i: int| in_match(items, cs, i) && item_has_tag(items[i], c, v)
}

/// Some matching item lacks value `v` under category `c`.
pub open spec fn value_missing(
    items: Seq<Item>,
    cs: Seq<(Seq<char>, Seq<char>)>,
    c: Seq<char>,
    v: Seq<char>,
) -> bool {
    exists|i: int| in_match(items, cs, i) && !item_has_tag(items[i], c, v)
}

/// Category `c` still discriminates among the matching items.
pub open spec fn discriminates(
    items: Seq<Item>,
    cs: Seq<(Seq<char>, Seq<char>)>,
    c: Seq<char>,
) -> bool {
    exists|v: Seq<char>|
        value_present(items, cs, c, v) && value_missing(items, cs, c, v)
}

/// Category `c` is offered as a further directory level under `cs`.
pub open spec fn remaining_cat(
    items: Seq<Item>,
    cs: Seq<(Seq<char>, Seq<char>)>,
    c: Seq<char>,
) -> bool {
    !cat_fixed(cs, c) && discriminates(items, cs, c)
}

/// No category is offered: the constraint set is fully determined.
pub open spec fn no_remaining(items: Seq<Item>, cs: Seq<(Seq<char>, Seq<char>)>) -> bool {
    forall|c: Seq<char>| !remaining_cat(items, cs, c)
}

/// A value of category `c` carried by some item of the prefix
/// `m[0..t]` of the matching vector.
pub open spec fn prefix_present(
    items: Seq<Item>,
    m: Seq<usize>,
    t: int,
    c: Seq<char>,
    x: Seq<char>,
) -> bool {
    exists|t0: int| 0 <= t0 < t && item_has_tag(items[m[t0] as int], c, x)
}

/// The values the item carries under category `c`, if it carries the
/// category at all.
fn values_for<'a>(it: &'a Item, c: &String) -> (r: Option<&'a Vec<String>>)
    requires
        valid_item(*it),
    ensures
        r matches Some(vals) ==> vals@.len() > 0 && (forall|x: Seq<char>|
            (exists|k: int| 0 <= k < vals@.len() && vals@[k]@ == x) <==> item_has_tag(
                *it,
                c@,
                x,
            )),
        r is None ==> !item_has_cat(*it, c@),
{
    let n = it.tags.len();
    let mut j: usize = 0;
    while j < n
        invariant
            valid_item(*it),
            n == it.tags@.len(),
            j <= n,
            forall|t: int| 0 <= t < j ==> it.tags@[t].0@ != c@,
        decreases n - j,
    {
        if it.tags[j].0 == *c {
            let vals = &it.tags[j].1;
            proof {
                assert(it.tags@[j as int].0@ == c@);
                assert forall|x: Seq<char>|
                    (exists|k: int| 0 <= k < vals@.len() && vals@[k]@ == x) <==> item_has_tag(
                    *it,
                    c@,
                    x,
                ) by {
                    if exists|k: int| 0 <= k < vals@.len() && vals@[k]@ == x {
                        let k = choose|k: int| 0 <= k < vals@.len() && vals@[k]@ == x;
                        assert(item_has_tag(*it, c@, x));
                    }
                    if item_has_tag(*it, c@, x) {
                        let (j2, k2) = choose|j2: int, k2: int|
                            0 <= j2 < it.tags@.len() && 0 <= k2 < it.tags@[j2].1@.len()
                                && it.tags@[j2].0@ == c@ && it.tags@[j2].1@[k2]@ == x;
                        assert(j2 == j);
                        assert(vals@[k2]@ == x);
                    }
                };
            }
            return Some(vals);
        }
        j = j + 1;
    }
    None
}

/// Whether every matching item carries value `v` under category `c`.
fn all_matching_have(
    cat: &Catalog,
    cs: &ConstraintSet,
    m: &Vec<usize>,
    c: &String,
    v: &String,
) -> (r: bool)
    requires
        match_vec(cat.items@, cs@, m@),
    ensures
        r == !value_missing(cat.items@, cs@, c@, v@),
{
    let n = m.len();
    let mut t: usize = 0;
    while t < n
        invariant
            match_vec(cat.items@, cs@, m@),
            n == m@.len(),
            t <= n,
            forall|t0: int|
                0 <= t0 < t ==> item_has_tag(cat.items@[m@[t0] as int], c@, v@),
        decreases n - t,
    {
        let id = m[t];
        proof {
            assert(in_match(cat.items@, cs@, m@[t as int] as int));
        }
        if !crate::constraint::has_tag(&cat.items[id], c, v) {
            proof {
                assert(in_match(cat.items@, cs@, id as int) && !item_has_tag(
                    cat.items@[id as int],
                    c@,
                    v@,
                ));
            }
            return false;
        }
        t = t + 1;
    }
    proof {
        assert forall|i: int|
            in_match(cat.items@, cs@, i) implies item_has_tag(cat.items@[i], c@, v@) by {
            assert(cat.items.len() == cat.items@.len());
            assert(m@.contains(i as usize));
            let t0 = choose|t0: int| 0 <= t0 < m@.len() && m@[t0] == i as usize;
            assert(item_has_tag(cat.items@[m@[t0] as int], c@, v@));
        };
    }
    true
}

/// Whether category `c` still discriminates among the matching items.
fn discriminates_exec(cat: &Catalog, cs: &ConstraintSet, m: &Vec<usize>, c: &String) -> (r:
    bool)
    requires
        cat.wf(),
        match_vec(cat.items@, cs@, m@),
    ensures
        r == discriminates(cat.items@, cs@, c@),
{
    let n = m.len();
    let mut t: usize = 0;
    while t < n
        invariant
            cat.wf(),
            match_vec(cat.items@, cs@, m@),
            n == m@.len(),
            t <= n,
            forall|x: Seq<char>|
                prefix_present(cat.items@, m@, t as int, c@, x) ==> !value_missing(
                    cat.items@,
                    cs@,
                    c@,
                    x,
                ),
        decreases n - t,
    {
        let id = m[t];
        proof {
            assert(in_match(cat.items@, cs@, m@[t as int] as int));
            assert(valid_item(cat.items@[id as int]));
        }
        match values_for(&cat.items[id], c) {
            Some(vals) => {
                let nk = vals.len();
                let mut k: usize = 0;
                while k < nk
                    invariant
                        cat.wf(),
                        match_vec(cat.items@, cs@, m@),
                        n == m@.len(),
                        t < n,
                        nk == vals@.len(),
                        k <= nk,
                        forall|x: Seq<char>|
                            (exists|k0: int| 0 <= k0 < vals@.len() && vals@[k0]@ == x)
                                <==> item_has_tag(cat.items@[m@[t as int] as int], c@, x),
                        forall|x: Seq<char>|
                            prefix_present(cat.items@, m@, t as int, c@, x) ==> !value_missing(
                                cat.items@,
                                cs@,
                                c@,
                                x,
                            ),
                        forall|k0: int|
                            0 <= k0 < k ==> !value_missing(cat.items@, cs@, c@, vals@[k0]@),
                    decreases nk - k,
                {
                    if !all_matching_have(cat, cs, m, c, &vals[k]) {
                        proof {
                            assert(item_has_tag(
                                cat.items@[m@[t as int] as int],
                                c@,
                                vals@[k as int]@,
                            ));
                            assert(value_present(cat.items@, cs@, c@, vals@[k as int]@));
                        }
                        return true;
                    }
                    k = k + 1;
                }
                proof {
                    assert forall|x: Seq<char>|
                        prefix_present(cat.items@, m@, t as int + 1, c@, x) implies !value_missing(
                        cat.items@,
                        cs@,
                        c@,
                        x,
                    ) by {
                        let t0 = choose|t0: int|
                            0 <= t0 < t + 1 && item_has_tag(cat.items@[m@[t0] as int], c@, x);
                        if t0 < t {
                            assert(prefix_present(cat.items@, m@, t as int, c@, x));
                        } else {
                            let k0 = choose|k0: int| 0 <= k0 < vals@.len() && vals@[k0]@ == x;
                            assert(!value_missing(cat.items@, cs@, c@, vals@[k0]@));
                        }
                    };
                }
            },
            None => {
                proof {
                    assert forall|x: Seq<char>|
                        prefix_present(cat.items@, m@, t as int + 1, c@, x) implies !value_missing(
                        cat.items@,
                        cs@,
                        c@,
                        x,
                    ) by {
                        let t0 = choose|t0: int|
                            0 <= t0 < t + 1 && item_has_tag(cat.items@[m@[t0] as int], c@, x);
                        if t0 < t {
                            assert(prefix_present(cat.items@, m@, t as int, c@, x));
                        } else {
                            assert(item_has_tag(cat.items@[m@[t as int] as int], c@, x));
                            assert(item_has_cat(cat.items@[m@[t as int] as int], c@));
                        }
                    };
                }
            },
        }
        t = t + 1;
    }
    proof {
        if discriminates(cat.items@, cs@, c@) {
            let v = choose|v: Seq<char>|
                value_present(cat.items@, cs@, c@, v) && value_missing(cat.items@, cs@, c@, v);
            let i = choose|i: int|
                in_match(cat.items@, cs@, i) && item_has_tag(cat.items@[i], c@, v);
            assert(cat.items.len() == cat.items@.len());
            assert(m@.contains(i as usize));
            let t0 = choose|t0: int| 0 <= t0 < m@.len() && m@[t0] == i as usize;
            assert(prefix_present(cat.items@, m@, n as int, c@, v));
            assert(false);
        }
    }
    false
}

/// The values of category `c` carried by matching items, in ascending
/// lexicographic order, each exactly once.
pub fn remaining_values(cat: &Catalog, cs: &ConstraintSet, m: &Vec<usize>, c: &String) -> (r:
    Vec<String>)
    requires
        cat.wf(),
        match_vec(cat.items@, cs@, m@),
    ensures
        strictly_sorted(name_seq(r@)),
        forall|x: Seq<char>|
            name_seq(r@).contains(x) ==> value_present(cat.items@, cs@, c@, x),
        forall|x: Seq<char>|
            value_present(cat.items@, cs@, c@, x) ==> name_seq(r@).contains(x),
{
    let n = m.len();
    let mut r: Vec<String> = Vec::new();
    let mut t: usize = 0;
    while t < n
        invariant
            cat.wf(),
            match_vec(cat.items@, cs@, m@),
            n == m@.len(),
            t <= n,
            strictly_sorted(name_seq(r@)),
            forall|x: Seq<char>|
                name_seq(r@).contains(x) ==> prefix_present(cat.items@, m@, t as int, c@, x),
            forall|x: Seq<char>|
                prefix_present(cat.items@, m@, t as int, c@, x) ==> name_seq(r@).contains(x),
        decreases n - t,
    {
        let id = m[t];
        proof {
            assert(in_match(cat.items@, cs@, m@[t as int] as int));
            assert(valid_item(cat.items@[id as int]));
        }
        let ghost r_at_t = r@;
        match values_for(&cat.items[id], c) {
            Some(vals) => {
                let nk = vals.len();
                let mut k: usize = 0;
                while k < nk
                    invariant
                        cat.wf(),
                        match_vec(cat.items@, cs@, m@),
                        n == m@.len(),
                        t < n,
                        nk == vals@.len(),
                        k <= nk,
                        strictly_sorted(name_seq(r@)),
                        forall|x: Seq<char>|
                            (exists|k0: int| 0 <= k0 < vals@.len() && vals@[k0]@ == x)
                                <==> item_has_tag(cat.items@[m@[t as int] as int], c@, x),
                        forall|x: Seq<char>|
                            name_seq(r@).contains(x) ==> (prefix_present(
                                cat.items@,
                                m@,
                                t as int,
                                c@,
                                x,
                            ) || (exists|k0: int| 0 <= k0 < k && vals@[k0]@ == x)),
                        forall|x: Seq<char>|
                            prefix_present(cat.items@, m@, t as int, c@, x) ==> name_seq(
                                r@,
                            ).contains(x),
                        forall|k0: int| 0 <= k0 < k ==> name_seq(r@).contains(vals@[k0]@),
                    decreases nk - k,
                {
                    sorted_insert(&mut r, vals[k].clone());
                    k = k + 1;
                }
                proof {
                    assert forall|x: Seq<char>|
                        name_seq(r@).contains(x) implies prefix_present(
                        cat.items@,
                        m@,
                        t as int + 1,
                        c@,
                        x,
                    ) by {
                        if prefix_present(cat.items@, m@, t as int, c@, x) {
                            let t0 = choose|t0: int|
                                0 <= t0 < t && item_has_tag(cat.items@[m@[t0] as int], c@, x);
                            assert(item_has_tag(cat.items@[m@[t0] as int], c@, x));
                        } else {
                            let k0 = choose|k0: int| 0 <= k0 < vals@.len() && vals@[k0]@ == x;
                            assert(item_has_tag(cat.items@[m@[t as int] as int], c@, x));
                        }
                    };
                    assert forall|x: Seq<char>|
                        prefix_present(cat.items@, m@, t as int + 1, c@, x) implies name_seq(
                        r@,
                    ).contains(x) by {
                        let t0 = choose|t0: int|
                            0 <= t0 < t + 1 && item_has_tag(cat.items@[m@[t0] as int], c@, x);
                        if t0 < t {
                            assert(prefix_present(cat.items@, m@, t as int, c@, x));
                        } else {
                            let k0 = choose|k0: int| 0 <= k0 < vals@.len() && vals@[k0]@ == x;
                            assert(name_seq(r@).contains(vals@[k0]@));
                        }
                    };
                }
            },
            None => {
                proof {
                    assert forall|x: Seq<char>|
                        prefix_present(cat.items@, m@, t as int + 1, c@, x) implies name_seq(
                        r@,
                    ).contains(x) by {
                        let t0 = choose|t0: int|
                            0 <= t0 < t + 1 && item_has_tag(cat.items@[m@[t0] as int], c@, x);
                        if t0 < t {
                            assert(prefix_present(cat.items@, m@, t as int, c@, x));
                        } else {
                            assert(item_has_cat(cat.items@[m@[t as int] as int], c@));
                        }
                    };
                    assert forall|x: Seq<char>|
                        name_seq(r@).contains(x) implies prefix_present(
                        cat.items@,
                        m@,
                        t as int + 1,
                        c@,
                        x,
                    ) by {
                        let t0 = choose|t0: int|
                            0 <= t0 < t && item_has_tag(cat.items@[m@[t0] as int], c@, x);
                        assert(item_has_tag(cat.items@[m@[t0] as int], c@, x));
                    };
                }
            },
        }
        t = t + 1;
    }
    proof {
        assert forall|x: Seq<char>|
            name_seq(r@).contains(x) implies value_present(cat.items@, cs@, c@, x) by {
            let t0 = choose|t0: int|
                0 <= t0 < n && item_has_tag(cat.items@[m@[t0] as int], c@, x);
            assert(in_match(cat.items@, cs@, m@[t0] as int));
        };
        assert forall|x: Seq<char>|
            value_present(cat.items@, cs@, c@, x) implies name_seq(r@).contains(x) by {
            let i = choose|i: int|
                in_match(cat.items@, cs@, i) && item_has_tag(cat.items@[i], c@, x);
            assert(cat.items.len() == cat.items@.len());
            assert(m@.contains(i as usize));
            let t0 = choose|t0: int| 0 <= t0 < m@.len() && m@[t0] == i as usize;
            assert(prefix_present(cat.items@, m@, n as int, c@, x));
        };
    }
    r
}

/// The categories still offered as subdirectories under `cs`, in
/// ascending lexicographic order, each exactly once.
pub fn remaining_categories(cat: &Catalog, cs: &ConstraintSet, m: &Vec<usize>) -> (r: Vec<
    String,
>)
    requires
        cat.wf(),
        match_vec(cat.items@, cs@, m@),
    ensures
        strictly_sorted(name_seq(r@)),
        forall|x: Seq<char>| name_seq(r@).contains(x) ==> remaining_cat(cat.items@, cs@, x),
        forall|x: Seq<char>| remaining_cat(cat.items@, cs@, x) ==> name_seq(r@).contains(x),
{
    let n = m.len();
    let mut r: Vec<String> = Vec::new();
    let mut t: usize = 0;
    while t < n
        invariant
            cat.wf(),
            match_vec(cat.items@, cs@, m@),
            n == m@.len(),
            t <= n,
            strictly_sorted(name_seq(r@)),
            forall|x: Seq<char>|
                name_seq(r@).contains(x) ==> remaining_cat(cat.items@, cs@, x),
            forall|x: Seq<char>|
                remaining_cat(cat.items@, cs@, x) && (exists|t0: int, j0: int|
                    0 <= t0 < t && 0 <= j0 < cat.items@[m@[t0] as int].tags@.len()
                        && cat.items@[m@[t0] as int].tags@[j0].0@ == x) ==> name_seq(
                    r@,
                ).contains(x),
        decreases n - t,
    {
        let id = m[t];
        proof {
            assert(in_match(cat.items@, cs@, m@[t as int] as int));
            assert(valid_item(cat.items@[id as int]));
        }
        let nj = cat.items[id].tags.len();
        let mut j: usize = 0;
        while j < nj
            invariant
                cat.wf(),
                match_vec(cat.items@, cs@, m@),
                n == m@.len(),
                t < n,
                id == m@[t as int],
                (id as int) < cat.items@.len(),
                nj == cat.items@[id as int].tags@.len(),
                j <= nj,
                strictly_sorted(name_seq(r@)),
                forall|x: Seq<char>|
                    name_seq(r@).contains(x) ==> remaining_cat(cat.items@, cs@, x),
                forall|x: Seq<char>|
                    remaining_cat(cat.items@, cs@, x) && (exists|t0: int, j0: int|
                        0 <= t0 < t && 0 <= j0 < cat.items@[m@[t0] as int].tags@.len()
                            && cat.items@[m@[t0] as int].tags@[j0].0@ == x) ==> name_seq(
                        r@,
                    ).contains(x),
                forall|j0: int|
                    0 <= j0 < j && remaining_cat(
                        cat.items@,
                        cs@,
                        cat.items@[id as int].tags@[j0].0@,
                    ) ==> name_seq(r@).contains(cat.items@[id as int].tags@[j0].0@),
            decreases nj - j,
        {
            let c = &cat.items[id].tags[j].0;
            if !cs.fixes(c) && discriminates_exec(cat, cs, m, c) {
                let ghost before = r@;
                sorted_insert(&mut r, c.clone());
                proof {
                    assert forall|x: Seq<char>|
                        name_seq(r@).contains(x) implies remaining_cat(cat.items@, cs@, x) by {
                        if name_seq(before).contains(x) {
                        } else {
                            assert(x == c@);
                        }
                    };
                }
            }
            j = j + 1;
        }
        proof {
            assert forall|x: Seq<char>|
                remaining_cat(cat.items@, cs@, x) && (exists|t0: int, j0: int|
                    0 <= t0 < t + 1 && 0 <= j0 < cat.items@[m@[t0] as int].tags@.len()
                        && cat.items@[m@[t0] as int].tags@[j0].0@ == x) implies name_seq(
                r@,
            ).contains(x) by {
                let (t0, j0) = choose|t0: int, j0: int|
                    0 <= t0 < t + 1 && 0 <= j0 < cat.items@[m@[t0] as int].tags@.len()
                        && cat.items@[m@[t0] as int].tags@[j0].0@ == x;
                if t0 < t {
                    assert(exists|t1: int, j1: int|
                        0 <= t1 < t && 0 <= j1 < cat.items@[m@[t1] as int].tags@.len()
                            && cat.items@[m@[t1] as int].tags@[j1].0@ == x);
                } else {
                    assert(name_seq(r@).contains(cat.items@[id as int].tags@[j0].0@));
                }
            };
        }
        t = t + 1;
    }
    proof {
        assert forall|x: Seq<char>|
            remaining_cat(cat.items@, cs@, x) implies name_seq(r@).contains(x) by {
            assert(discriminates(cat.items@, cs@, x));
            let v2 = choose|v2: Seq<char>|
                value_present(cat.items@, cs@, x, v2) && value_missing(cat.items@, cs@, x, v2);
            let i = choose|i: int|
                in_match(cat.items@, cs@, i) && item_has_tag(cat.items@[i], x, v2);
            assert(cat.items.len() == cat.items@.len());
            assert(m@.contains(i as usize));
            let t0 = choose|t0: int| 0 <= t0 < m@.len() && m@[t0] == i as usize;
            let tg = cat.items@[i].tags@;
            let (j0, k0) = choose|j0: int, k0: int|
                0 <= j0 < tg.len() && 0 <= k0 < tg[j0].1@.len() && tg[j0].0@ == x
                    && tg[j0].1@[k0]@ == v2;
            assert(exists|t1: int, j1: int|
                0 <= t1 < n && 0 <= j1 < cat.items@[m@[t1] as int].tags@.len()
                    && cat.items@[m@[t1] as int].tags@[j1].0@ == x);
        };
    }
    r
}

/// No offered category is degenerate: whenever `c` is offered under
/// `cs`, some offered value of it strictly shrinks the set of matching
/// items. Categories whose every value would leave the match set
/// unchanged are never offered.
pub proof fn lemma_no_degenerate_branch(
    items: Seq<Item>,
    cs: Seq<(Seq<char>, Seq<char>)>,
    c: Seq<char>,
)
    requires
        remaining_cat(items, cs, c),
    ensures
        exists|v: Seq<char>|
            value_present(items, cs, c, v) && match_set(items, cs.push((c, v))).len()
                < match_set(items, cs).len(),
{
    let v = choose|v: Seq<char>|
        value_present(items, cs, c, v) && value_missing(items, cs, c, v);
    let cs2 = cs.push((c, v));
    let big = match_set(items, cs);
    let small = match_set(items, cs2);
    assert(big.subset_of(set_int_range(0, items.len() as int)));
    lemma_int_range(0, items.len() as int);
    lemma_len_subset(big, set_int_range(0, items.len() as int));
    assert(big.finite());
    assert forall|i: int| small.contains(i) implies big.contains(i) by {
        assert(crate::constraint::matches(items[i], cs2));
        assert forall|p: int| 0 <= p < cs.len() implies item_has_tag(items[i], cs[p].0, cs[p].1) by {
            assert(cs2[p] == cs[p]);
            assert(item_has_tag(items[i], cs2[p].0, cs2[p].1));
        };
    };
    let miss = choose|i: int| in_match(items, cs, i) && !item_has_tag(items[i], c, v);
    assert(big.contains(miss));
    assert(!small.contains(miss)) by {
        if small.contains(miss) {
            assert(cs2[cs.len() as int] == (c, v));
            assert(item_has_tag(items[miss], c, v));
        }
    };
    small.lemma_subset_not_in_lt(big, miss);
}

} // verus!
