//! Lexicographic ordering of names.
//!
//! Directory listings and the remaining-category computation surface
//! names in a fixed, deterministic order: strict lexicographic order by
//! character code point. This module defines that order, proves it is a
//! strict total order, and provides the sorted-insert used to build
//! ordered, duplicate-free name vectors.

use vstd::prelude::*;
use vstd::string::StrSliceExecFns;

verus! {

/// Strict lexicographic order on character sequences, comparing code points.
pub open spec fn lex_lt(a: Seq<char>, b: Seq<char>) -> bool
    decreases a.len(),
{
    if b.len() == 0 {
        false
    } else if a.len() == 0 {
        true
    } else if (a[0] as u32) < (b[0] as u32) {
        true
    } else if (b[0] as u32) < (a[0] as u32) {
        false
    } else {
        lex_lt(a.drop_first(), b.drop_first())
    }
}

/// Equal code points give equal characters.
proof fn lemma_char_eq(x: char, y: char)
    requires
        x as u32 == y as u32,
    ensures
        x == y,
{
}

/// The order is irreflexive.
pub proof fn lemma_lex_irrefl(a: Seq<char>)
    ensures
        !lex_lt(a, a),
    decreases a.len(),
{
    if a.len() > 0 {
        lemma_lex_irrefl(a.drop_first());
    }
}

/// Two sequences not ordered either way are equal.
pub proof fn lemma_lex_connex(a: Seq<char>, b: Seq<char>)
    requires
        !lex_lt(a, b),
        !lex_lt(b, a),
    ensures
        a == b,
    decreases a.len(),
{
    if a.len() == 0 {
        assert(b.len() == 0);
        assert(a =~= b);
    } else {
        assert(b.len() > 0);
        lemma_lex_connex(a.drop_first(), b.drop_first());
        assert((a[0] as u32) == (b[0] as u32));
        lemma_char_eq(a[0], b[0]);
        assert(a[0] == b[0]);
        assert(a.drop_first() == b.drop_first());
        assert(a.drop_first().len() == a.len() - 1);
        assert(b.drop_first().len() == b.len() - 1);
        assert(a.len() == b.len());
        assert(forall|i: int| 1 <= i < a.len() ==> a[i] == a.drop_first()[i - 1]);
        assert(forall|i: int| 1 <= i < b.len() ==> b[i] == b.drop_first()[i - 1]);
        assert(a =~= b);
    }
}

/// The order is transitive.
pub proof fn lemma_lex_trans(a: Seq<char>, b: Seq<char>, c: Seq<char>)
    requires
        lex_lt(a, b),
        lex_lt(b, c),
    ensures
        lex_lt(a, c),
    decreases a.len(),
{
    if a.len() == 0 {
        assert(c.len() > 0);
    } else {
        assert(b.len() > 0 && c.len() > 0);
        if (a[0] as u32) == (b[0] as u32) && (b[0] as u32) == (c[0] as u32) {
            lemma_lex_trans(a.drop_first(), b.drop_first(), c.drop_first());
        }
    }
}

/// The order is asymmetric.
pub proof fn lemma_lex_asym(a: Seq<char>, b: Seq<char>)
    requires
        lex_lt(a, b),
    ensures
        !lex_lt(b, a),
{
    if lex_lt(b, a) {
        lemma_lex_trans(a, b, a);
        lemma_lex_irrefl(a);
    }
}

/// Compares two names; true exactly when `a` precedes `b` lexicographically.
pub fn str_lt(a: &String, b: &String) -> (r: bool)
    ensures
        r == lex_lt(a@, b@),
{
    let la: usize = a.as_str().unicode_len();
    let lb: usize = b.as_str().unicode_len();
    let mut i: usize = 0;
    proof {
        assert(a@.skip(0) =~= a@);
        assert(b@.skip(0) =~= b@);
    }
    while i < la && i < lb
        invariant
            i <= la,
            i <= lb,
            la == a@.len(),
            lb == b@.len(),
            lex_lt(a@, b@) == lex_lt(a@.skip(i as int), b@.skip(i as int)),
        decreases la - i,
    {
        let ca = a.as_str().get_char(i);
        let cb = b.as_str().get_char(i);
        if (ca as u32) < (cb as u32) {
            return true;
        }
        if (cb as u32) < (ca as u32) {
            return false;
        }
        proof {
            assert(a@.skip(i as int).drop_first() =~= a@.skip(i as int + 1));
            assert(b@.skip(i as int).drop_first() =~= b@.skip(i as int + 1));
        }
        i = i + 1;
    }
    proof {
        assert(a@.skip(i as int).len() == la - i);
        assert(b@.skip(i as int).len() == lb - i);
        if i == lb {
            assert(!lex_lt(a@.skip(i as int), b@.skip(i as int)));
        } else {
            assert(i == la && i < lb);
            assert(lex_lt(a@.skip(i as int), b@.skip(i as int)));
        }
    }
    la < lb
}

/// The views of a vector of names.
pub open spec fn name_seq(v: Seq<String>) -> Seq<Seq<char>> {
    v.map(|i: int, s: String| s@)
}

/// Strictly ascending lexicographic order; implies the names are distinct.
pub open spec fn strictly_sorted(s: Seq<Seq<char>>) -> bool {
    forall|i: int, j: int| 0 <= i < j < s.len() ==> lex_lt(s[i], s[j])
}

/// Inserts `s` into a strictly sorted vector, keeping it sorted and
/// duplicate-free; the set of names grows by exactly `s`.
pub fn sorted_insert(v: &mut Vec<String>, s: String)
    requires
        strictly_sorted(name_seq(old(v)@)),
    ensures
        strictly_sorted(name_seq(final(v)@)),
        forall|x: Seq<char>|
            name_seq(final(v)@).contains(x) ==> (name_seq(old(v)@).contains(x) || x == s@),
        forall|x: Seq<char>| name_seq(old(v)@).contains(x) ==> name_seq(final(v)@).contains(x),
        name_seq(final(v)@).contains(s@),
{
    let mut i: usize = 0;
    while i < v.len() && str_lt(&v[i], &s)
        invariant
            i <= v@.len(),
            v@ == old(v)@,
            strictly_sorted(name_seq(v@)),
            forall|j: int| 0 <= j < i ==> lex_lt(name_seq(v@)[j], s@),
        decreases v@.len() - i,
    {
        i = i + 1;
    }
    if i < v.len() && v[i] == s {
        proof {
            assert(name_seq(v@)[i as int] == s@);
            assert(forall|x: Seq<char>|
                name_seq(v@).contains(x) <==> (name_seq(old(v)@).contains(x) || x == s@));
        }
        return ;
    }
    proof {
        if i < v@.len() && !lex_lt(s@, name_seq(v@)[i as int]) {
            lemma_lex_connex(s@, name_seq(v@)[i as int]);
            assert(false);
        }
    }
    let ghost prev = v@;
    v.insert(i, s);
    proof {
        assert(v@ == prev.insert(i as int, s));
        assert forall|x: Seq<char>|
            name_seq(v@).contains(x) implies (name_seq(prev).contains(x) || x == s@) by {
            let t = choose|t: int| 0 <= t < name_seq(v@).len() && name_seq(v@)[t] == x;
            if t < i {
                assert(name_seq(prev)[t] == x);
            } else if t > i {
                assert(name_seq(prev)[t - 1] == x);
            }
        };
        assert forall|x: Seq<char>|
            (name_seq(prev).contains(x) || x == s@) implies name_seq(v@).contains(x) by {
            if x == s@ {
                assert(name_seq(v@)[i as int] == x);
            } else {
                let t = choose|t: int| 0 <= t < name_seq(prev).len() && name_seq(prev)[t] == x;
                if t < i {
                    assert(name_seq(v@)[t] == x);
                } else {
                    assert(name_seq(v@)[t + 1] == x);
                }
            }
        };
        assert(prev == old(v)@);
        assert(forall|x: Seq<char>|
            name_seq(v@).contains(x) <==> (name_seq(prev).contains(x) || x == s@));
        assert forall|j1: int, j2: int|
            0 <= j1 < j2 < name_seq(v@).len() implies lex_lt(
            name_seq(v@)[j1],
            name_seq(v@)[j2],
        ) by {
            let n1 = name_seq(v@)[j1];
            let n2 = name_seq(v@)[j2];
            if j1 < i && j2 < i {
                assert(n1 == name_seq(prev)[j1] && n2 == name_seq(prev)[j2]);
            } else if j1 < i && j2 == i {
                assert(n1 == name_seq(prev)[j1] && n2 == s@);
            } else if j1 < i && j2 > i {
                assert(n1 == name_seq(prev)[j1] && n2 == name_seq(prev)[j2 - 1]);
                if j2 - 1 > j1 {
                } else {
                    assert(j2 - 1 == j1);
                    lemma_lex_trans(n1, s@, n2);
                }
            } else if j1 == i {
                assert(n1 == s@ && n2 == name_seq(prev)[j2 - 1]);
                if j2 - 1 == i {
                } else {
                    lemma_lex_trans(s@, name_seq(prev)[i as int], n2);
                }
            } else {
                assert(n1 == name_seq(prev)[j1 - 1] && n2 == name_seq(prev)[j2 - 1]);
            }
        };
    }
}

/// Whether the vector holds a name equal to `x`.
pub fn contains_name(v: &Vec<String>, x: &String) -> (r: bool)
    ensures
        r == name_seq(v@).contains(x@),
{
    let n = v.len();
    let mut i: usize = 0;
    while i < n
        invariant
            n == v@.len(),
            i <= n,
            forall|t: int| 0 <= t < i ==> name_seq(v@)[t] != x@,
        decreases n - i,
    {
        if v[i] == *x {
            proof {
                assert(name_seq(v@)[i as int] == x@);
            }
            return true;
        }
        i = i + 1;
    }
    proof {
        if name_seq(v@).contains(x@) {
            let t = choose|t: int| 0 <= t < name_seq(v@).len() && name_seq(v@)[t] == x@;
            assert(false);
        }
    }
    false
}

/// Two strictly sorted name sequences with the same members are equal;
/// a sorted listing is therefore canonical.
pub proof fn lemma_sorted_unique(a: Seq<Seq<char>>, b: Seq<Seq<char>>)
    requires
        strictly_sorted(a),
        strictly_sorted(b),
        forall|x: Seq<char>| a.contains(x) <==> b.contains(x),
    ensures
        a == b,
    decreases a.len(),
{
    if a.len() == 0 {
        if b.len() > 0 {
            assert(b.contains(b[0]));
        }
        assert(a =~= b);
    } else {
        assert(a.contains(a[0]));
        assert(b.len() > 0);
        assert(b.contains(a[0]));
        assert(b.contains(b[0]));
        assert(a.contains(b[0]));
        let k = choose|k: int| 0 <= k < b.len() && b[k] == a[0];
        let m = choose|m: int| 0 <= m < a.len() && a[m] == b[0];
        assert(0 <= k < b.len() && b[k] == a[0]);
        assert(0 <= m < a.len() && a[m] == b[0]);
        if k != 0 && m != 0 {
            assert(lex_lt(b[0], b[k]));
            assert(lex_lt(a[0], a[m]));
            lemma_lex_asym(a[0], b[0]);
        }
        assert(a[0] == b[0]);
        let at = a.drop_first();
        let bt = b.drop_first();
        assert forall|x: Seq<char>| at.contains(x) implies bt.contains(x) by {
            lemma_tail_membership(a, b, x);
        };
        assert forall|x: Seq<char>| bt.contains(x) implies at.contains(x) by {
            lemma_tail_membership(b, a, x);
        };
        lemma_sorted_unique(at, bt);
        assert(a =~= b) by {
            assert(at =~= bt);
            assert(forall|i: int|
                1 <= i < a.len() ==> a[i] == at[i - 1] && b[i] == bt[i - 1]);
        };
    }
}

/// Helper for `lemma_sorted_unique`: a member of one tail is a member of
/// the other tail, given equal heads and equal membership overall.
proof fn lemma_tail_membership(a: Seq<Seq<char>>, b: Seq<Seq<char>>, x: Seq<char>)
    requires
        strictly_sorted(a),
        strictly_sorted(b),
        forall|y: Seq<char>| a.contains(y) <==> b.contains(y),
        a.len() > 0,
        b.len() > 0,
        a[0] == b[0],
        a.drop_first().contains(x),
    ensures
        b.drop_first().contains(x),
{
    let t = choose|t: int| 0 <= t < a.drop_first().len() && a.drop_first()[t] == x;
    assert(a[t + 1] == x);
    assert(a.contains(x));
    assert(lex_lt(a[0], x));
    let u = choose|u: int| 0 <= u < b.len() && b[u] == x;
    if u == 0 {
        lemma_lex_irrefl(x);
    }
    assert(b.drop_first()[u - 1] == x);
}

} // verus!
