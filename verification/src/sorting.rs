//! The order of names, and lists of names in that order.

use crate::types::{Name, TempId};
use vstd::prelude::*;

verus! {

/// Whether a name comes before another: character by character, by code point.
pub open spec fn precedes(a: Name, b: Name) -> bool
    decreases a.len(),
{
    if b.len() == 0 {
        false
    } else if a.len() == 0 {
        true
    } else if a[0] != b[0] {
        a[0] < b[0]
    } else {
        precedes(a.subrange(1, a.len() as int), b.subrange(1, b.len() as int))
    }
}

/// No name comes before itself.
pub proof fn lemma_irreflexive(a: Name)
    ensures
        !precedes(a, a),
    decreases a.len(),
{
    if a.len() > 0 {
        lemma_irreflexive(a.subrange(1, a.len() as int));
    }
}

/// The order is transitive.
pub proof fn lemma_transitive(a: Name, b: Name, c: Name)
    requires
        precedes(a, b),
        precedes(b, c),
    ensures
        precedes(a, c),
    decreases a.len(),
{
    if a.len() > 0 && b.len() > 0 && c.len() > 0 && a[0] == b[0] && b[0] == c[0] {
        lemma_transitive(
            a.subrange(1, a.len() as int),
            b.subrange(1, b.len() as int),
            c.subrange(1, c.len() as int),
        );
    }
}

/// Of two names one comes before the other.
pub proof fn lemma_total(a: Name, b: Name)
    requires
        a != b,
    ensures
        precedes(a, b) || precedes(b, a),
    decreases a.len(),
{
    if a.len() > 0 && b.len() > 0 && a[0] == b[0] {
        let x = a.subrange(1, a.len() as int);
        let y = b.subrange(1, b.len() as int);
        if x == y {
            assert(a =~= seq![a[0]] + x);
            assert(b =~= seq![b[0]] + y);
        }
        lemma_total(x, y);
    } else {
        if a.len() == 0 && b.len() == 0 {
            assert(a =~= b);
        }
    }
}

/// Whether the names stand in order, each once.
pub open spec fn in_order(s: Seq<Name>) -> bool {
    forall|i: int, j: int| 0 <= i < j < s.len() ==> precedes(#[trigger] s[i], #[trigger] s[j])
}

/// Whether the list holds the names with the property, in order, each once.
pub open spec fn lists(s: Seq<Name>, p: spec_fn(Name) -> bool) -> bool {
    in_order(s) && forall|x: Name| #[trigger] s.contains(x) <==> p(x)
}

/// The names with the property, in order, each once.
pub open spec fn ordered(p: spec_fn(Name) -> bool) -> Seq<Name> {
    choose|s: Seq<Name>| lists(s, p)
}

/// Only one list holds the names with a property in order, each once.
pub proof fn lemma_ordered(s: Seq<Name>, p: spec_fn(Name) -> bool)
    requires
        lists(s, p),
    ensures
        s == ordered(p),
{
    let t = ordered(p);
    assert(lists(t, p));
    assert forall|x: Name| #[trigger] s.contains(x) <==> t.contains(x) by {}
    lemma_same_order(s, t);
}

/// Two ordered lists with the same names are the same.
proof fn lemma_same_order(s: Seq<Name>, t: Seq<Name>)
    requires
        in_order(s),
        in_order(t),
        forall|x: Name| #[trigger] s.contains(x) <==> t.contains(x),
    ensures
        s == t,
    decreases s.len(),
{
    if s.len() == 0 {
        if t.len() > 0 {
            assert(t.contains(t[0]));
            assert(s.contains(t[0]));
        }
        assert(s =~= t);
    } else {
        assert(s.contains(s.last()));
        assert(t.contains(s.last()));
        let i = choose|i: int| 0 <= i < t.len() && t[i] == s.last();
        assert(t.contains(t.last()));
        assert(s.contains(t.last()));
        let j = choose|j: int| 0 <= j < s.len() && s[j] == t.last();
        if i < t.len() - 1 && j < s.len() - 1 {
            assert(precedes(t[i], t[t.len() - 1]));
            assert(precedes(s[j], s[s.len() - 1]));
            lemma_transitive(s.last(), t.last(), s.last());
            lemma_irreflexive(s.last());
        }
        assert(s.last() == t.last());
        let a = s.drop_last();
        let b = t.drop_last();
        assert forall|x: Name| #[trigger] a.contains(x) <==> b.contains(x) by {
            if a.contains(x) {
                let k = choose|k: int| 0 <= k < a.len() && a[k] == x;
                assert(s[k] == x);
                assert(precedes(s[k], s[s.len() - 1]));
                lemma_irreflexive(x);
                assert(s.contains(x));
                assert(t.contains(x));
                let m = choose|m: int| 0 <= m < t.len() && t[m] == x;
                assert(m < t.len() - 1);
                assert(b[m] == x);
            }
            if b.contains(x) {
                let k = choose|k: int| 0 <= k < b.len() && b[k] == x;
                assert(t[k] == x);
                assert(precedes(t[k], t[t.len() - 1]));
                lemma_irreflexive(x);
                assert(t.contains(x));
                assert(s.contains(x));
                let m = choose|m: int| 0 <= m < s.len() && s[m] == x;
                assert(m < s.len() - 1);
                assert(a[m] == x);
            }
        }
        lemma_same_order(a, b);
        assert(s =~= a.push(s.last()));
        assert(t =~= b.push(t.last()));
    }
}

/// An ordered list with one more name.
proof fn lemma_inserted(t: Seq<Name>, x: Name) -> (r: Seq<Name>)
    requires
        in_order(t),
    ensures
        in_order(r),
        forall|y: Name| #[trigger] r.contains(y) <==> t.contains(y) || y == x,
    decreases t.len(),
{
    if t.len() == 0 {
        let r = seq![x];
        assert(r[0] == x);
        r
    } else if t.last() == x {
        assert(t.contains(x));
        t
    } else if precedes(t.last(), x) {
        let r = t.push(x);
        assert forall|i: int| 0 <= i < t.len() implies precedes(#[trigger] t[i], x) by {
            if i < t.len() - 1 {
                assert(precedes(t[i], t[t.len() - 1]));
                lemma_transitive(t[i], t.last(), x);
            }
        }
        assert forall|y: Name| #[trigger] r.contains(y) <==> t.contains(y) || y == x by {
            if t.contains(y) {
                let k = choose|k: int| 0 <= k < t.len() && t[k] == y;
                assert(r[k] == y);
            }
            assert(r[t.len() as int] == x);
        }
        r
    } else {
        lemma_total(t.last(), x);
        let a = t.drop_last();
        let s = lemma_inserted(a, x);
        let r = s.push(t.last());
        assert forall|i: int| 0 <= i < s.len() implies precedes(#[trigger] s[i], t.last()) by {
            assert(s.contains(s[i]));
            if s[i] != x {
                let k = choose|k: int| 0 <= k < a.len() && a[k] == s[i];
                assert(precedes(t[k], t[t.len() - 1]));
            }
        }
        assert forall|y: Name| #[trigger] r.contains(y) <==> t.contains(y) || y == x by {
            assert(r[s.len() as int] == t.last());
            if r.contains(y) {
                let k = choose|k: int| 0 <= k < r.len() && r[k] == y;
                if k < s.len() {
                    assert(s[k] == y);
                    assert(s.contains(y));
                    if y != x {
                        let m = choose|m: int| 0 <= m < a.len() && a[m] == y;
                        assert(t[m] == y);
                    }
                }
            }
            if t.contains(y) {
                let k = choose|k: int| 0 <= k < t.len() && t[k] == y;
                if k < t.len() - 1 {
                    assert(a[k] == y);
                    assert(a.contains(y));
                    assert(s.contains(y));
                    let m = choose|m: int| 0 <= m < s.len() && s[m] == y;
                    assert(r[m] == y);
                }
            }
            if y == x {
                assert(s.contains(x));
                let m = choose|m: int| 0 <= m < s.len() && s[m] == x;
                assert(r[m] == x);
            }
        }
        r
    }
}

/// The names of a list with a property can be put in order.
pub proof fn lemma_listed(all: Seq<Name>, p: spec_fn(Name) -> bool) -> (r: Seq<Name>)
    requires
        forall|x: Name| #[trigger] p(x) ==> all.contains(x),
    ensures
        lists(r, p),
{
    let r = lemma_listed_prefix(all, p);
    r
}

/// The names of a list with a property, in order.
proof fn lemma_listed_prefix(all: Seq<Name>, p: spec_fn(Name) -> bool) -> (r: Seq<Name>)
    ensures
        in_order(r),
        forall|x: Name| #[trigger] r.contains(x) <==> p(x) && all.contains(x),
    decreases all.len(),
{
    if all.len() == 0 {
        Seq::empty()
    } else {
        let a = all.drop_last();
        let x = all.last();
        let s = lemma_listed_prefix(a, p);
        assert forall|y: Name| #[trigger] all.contains(y) <==> a.contains(y) || y == x by {
            if all.contains(y) {
                let k = choose|k: int| 0 <= k < all.len() && all[k] == y;
                if k < all.len() - 1 {
                    assert(a[k] == y);
                }
            }
            if a.contains(y) {
                let k = choose|k: int| 0 <= k < a.len() && a[k] == y;
                assert(all[k] == y);
            }
            assert(all[all.len() - 1] == x);
        }
        if p(x) {
            lemma_inserted(s, x)
        } else {
            s
        }
    }
}

/// Whether a name comes before another.
pub fn comes_before(a: &TempId, b: &TempId) -> (r: bool)
    ensures
        r == precedes(a@, b@),
{
    let n = a.as_str().unicode_len();
    let m = b.as_str().unicode_len();
    let mut i: usize = 0;
    assert(a@.subrange(0, a@.len() as int) =~= a@);
    assert(b@.subrange(0, b@.len() as int) =~= b@);
    while i < n && i < m
        invariant
            n == a@.len(),
            m == b@.len(),
            i <= n,
            i <= m,
            precedes(a@, b@) == precedes(
                a@.subrange(i as int, n as int),
                b@.subrange(i as int, m as int),
            ),
        decreases n - i,
    {
        let c = a.as_str().get_char(i);
        let d = b.as_str().get_char(i);
        let ghost x = a@.subrange(i as int, n as int);
        let ghost y = b@.subrange(i as int, m as int);
        assert(x[0] == c && y[0] == d);
        if c != d {
            return c < d;
        }
        assert(x.subrange(1, x.len() as int) =~= a@.subrange(i + 1, n as int));
        assert(y.subrange(1, y.len() as int) =~= b@.subrange(i + 1, m as int));
        i += 1;
    }
    i < m
}

/// Adds a name to an ordered list, unless it is there.
pub fn insert_name(out: &mut Vec<TempId>, x: &TempId)
    requires
        in_order(crate::ir::names(old(out)@)),
    ensures
        in_order(crate::ir::names(final(out)@)),
        forall|y: Name|
            #[trigger] crate::ir::names(final(out)@).contains(y) <==> crate::ir::names(
                old(out)@,
            ).contains(y) || y == x@,
{
    let ghost s = crate::ir::names(out@);
    let mut i: usize = 0;
    while i < out.len() && comes_before(&out[i], x)
        invariant
            i <= out.len(),
            s == crate::ir::names(out@),
            forall|j: int| 0 <= j < i ==> precedes(#[trigger] s[j], x@),
        decreases out.len() - i,
    {
        assert(s[i as int] == out@[i as int]@);
        i += 1;
    }
    if i < out.len() && out[i] == *x {
        assert(s[i as int] == x@);
        assert(s.contains(x@));
        return ;
    }
    proof {
        assert forall|j: int| i <= j < s.len() implies precedes(x@, #[trigger] s[j]) by {
            assert(s[i as int] == out@[i as int]@);
            lemma_total(s[i as int], x@);
            if j > i {
                assert(precedes(s[i as int], s[j]));
                lemma_transitive(x@, s[i as int], s[j]);
            }
        }
    }
    out.insert(i, x.clone());
    proof {
        let t = crate::ir::names(out@);
        assert(t =~= s.insert(i as int, x@));
        assert forall|y: Name| #[trigger] t.contains(y) <==> s.contains(y) || y == x@ by {
            if s.contains(y) {
                let k = choose|k: int| 0 <= k < s.len() && s[k] == y;
                if k < i {
                    assert(t[k] == y);
                } else {
                    assert(t[k + 1] == y);
                }
            }
            if y == x@ {
                assert(t[i as int] == y);
            }
            if t.contains(y) {
                let k = choose|k: int| 0 <= k < t.len() && t[k] == y;
                if k < i {
                    assert(s[k] == y);
                } else if k > i {
                    assert(s[k - 1] == y);
                }
            }
        }
    }
}

} // verus!
