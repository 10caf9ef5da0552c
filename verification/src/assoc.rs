//! Lists that give values to names.

use crate::types::{Name, TempId};
use vstd::prelude::*;

verus! {

/// The names of a list.
pub open spec fn keys<T>(s: Seq<(Name, T)>) -> Seq<Name> {
    Seq::new(s.len(), |i: int| s[i].0)
}

/// The names of an executable list.
pub open spec fn key_views<T>(s: Seq<(TempId, T)>) -> Seq<Name> {
    Seq::new(s.len(), |i: int| s[i].0@)
}

/// The first position at which a name stands.
pub open spec fn first_at(ks: Seq<Name>, x: Name) -> Option<nat>
    decreases ks.len(),
{
    if ks.len() == 0 {
        None
    } else {
        match first_at(ks.drop_last(), x) {
            Some(i) => Some(i),
            None => if ks.last() == x {
                Some((ks.len() - 1) as nat)
            } else {
                None
            },
        }
    }
}

/// A first position stays one in a longer list.
proof fn lemma_first_at_prefix(ks: Seq<Name>, k: int, x: Name)
    requires
        0 <= k <= ks.len(),
        first_at(ks.subrange(0, k), x) is Some,
    ensures
        first_at(ks, x) == first_at(ks.subrange(0, k), x),
    decreases ks.len(),
{
    if k == ks.len() {
        assert(ks.subrange(0, k) =~= ks);
    } else {
        assert(ks.drop_last().subrange(0, k) =~= ks.subrange(0, k));
        lemma_first_at_prefix(ks.drop_last(), k, x);
    }
}

/// What a list gives to a name.
pub open spec fn found<T>(s: Seq<(Name, T)>, x: Name) -> Option<T> {
    match first_at(keys(s), x) {
        Some(i) => Some(s[i as int].1),
        None => None,
    }
}

/// The list with a value given to a name: in place, or behind the others.
pub open spec fn put<T>(s: Seq<(Name, T)>, x: Name, v: T) -> Seq<(Name, T)> {
    match first_at(keys(s), x) {
        Some(i) => s.update(i as int, (x, v)),
        None => s.push((x, v)),
    }
}

/// The first position at which a name stands.
pub fn place_of<T>(v: &Vec<(TempId, T)>, x: &TempId) -> (r: Option<usize>)
    ensures
        match r {
            Some(i) => first_at(key_views(v@), x@) == Some(i as nat) && i < v@.len() && v@[
                i as int
            ].0@ == x@,
            None => first_at(key_views(v@), x@) is None,
        },
{
    let ghost ks = key_views(v@);
    let mut i: usize = 0;
    assert(ks.subrange(0, 0) =~= Seq::empty());
    while i < v.len()
        invariant
            i <= v.len(),
            ks == key_views(v@),
            first_at(ks.subrange(0, i as int), x@) is None,
        decreases v.len() - i,
    {
        let ghost next = ks.subrange(0, i + 1);
        assert(next.drop_last() =~= ks.subrange(0, i as int));
        assert(next.last() == v@[i as int].0@);
        if v[i].0 == *x {
            proof {
                lemma_first_at_prefix(ks, i + 1, x@);
            }
            return Some(i);
        }
        i += 1;
    }
    assert(ks.subrange(0, i as int) =~= ks);
    None
}

} // verus!
