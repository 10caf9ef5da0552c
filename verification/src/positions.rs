//! Where the elements of a list stand, by their numbers: a map of the `indexmap`
//! crate.

use indexmap::IndexMap;
use vstd::prelude::*;

verus! {

/// The insertion-ordered hash map of the `indexmap` crate.
#[verifier::external_type_specification]
#[verifier::external_body]
#[verifier::reject_recursive_types(K)]
#[verifier::reject_recursive_types(V)]
#[verifier::reject_recursive_types(S)]
pub struct ExIndexMap<K, V, S>(IndexMap<K, V, S>);

/// What a map gives to its keys.
pub uninterp spec fn entries(m: IndexMap<usize, usize>) -> Map<usize, usize>;

/// `IndexMap::new`: a map without keys.
#[verifier::external_body]
pub(crate) fn no_positions() -> (r: IndexMap<usize, usize>)
    ensures
        entries(r) =~= Map::empty(),
{
    IndexMap::new()
}

/// `IndexMap::insert`: the key gets the value, whether or not it had one.
#[verifier::external_body]
pub(crate) fn put_position(m: &mut IndexMap<usize, usize>, k: usize, v: usize)
    ensures
        entries(*final(m)) == entries(*old(m)).insert(k, v),
{
    m.insert(k, v);
}

/// `IndexMap::swap_remove`: takes the key out and returns what it had, if it was
/// there.
#[verifier::external_body]
pub(crate) fn take_position(m: &mut IndexMap<usize, usize>, k: usize) -> (r: Option<usize>)
    ensures
        entries(*final(m)) == entries(*old(m)).remove(k),
        match r {
            Some(v) => entries(*old(m)).dom().contains(k) && entries(*old(m))[k] == v,
            None => !entries(*old(m)).dom().contains(k),
        },
{
    m.swap_remove(&k)
}

/// Whether the map gives each number of the list its position.
pub open spec fn gives_positions(m: Map<usize, usize>, ids: Seq<usize>) -> bool {
    &&& forall|x: usize| #[trigger] m.dom().contains(x) <==> ids.contains(x)
    &&& forall|x: usize| #[trigger] m.dom().contains(x) ==> m[x] < ids.len() && ids[m[x] as int] == x
}

/// The positions of the numbers of a list.
pub fn positions_of(ids: &Vec<usize>) -> (r: IndexMap<usize, usize>)
    ensures
        gives_positions(entries(r), ids@),
{
    let mut out = no_positions();
    let mut i: usize = 0;
    assert(ids@.subrange(0, 0) =~= Seq::empty());
    while i < ids.len()
        invariant
            i <= ids.len(),
            gives_positions(entries(out), ids@.subrange(0, i as int)),
        decreases ids.len() - i,
    {
        let ghost before = entries(out);
        let ghost s = ids@.subrange(0, i as int);
        let ghost t = ids@.subrange(0, i + 1);
        put_position(&mut out, ids[i], i);
        assert(t =~= s.push(ids@[i as int]));
        assert forall|x: usize| #[trigger] entries(out).dom().contains(x) <==> t.contains(x) by {
            if s.contains(x) {
                let k = choose|k: int| 0 <= k < s.len() && s[k] == x;
                assert(t[k] == x);
            }
            if x == ids@[i as int] {
                assert(t[i as int] == x);
            }
            assert(before.dom().contains(x) <==> s.contains(x));
        }
        assert forall|x: usize| #[trigger] entries(out).dom().contains(x) implies entries(out)[x]
            < t.len() && t[entries(out)[x] as int] == x by {
            if x != ids@[i as int] {
                assert(before.dom().contains(x));
            }
        }
        i += 1;
    }
    assert(ids@.subrange(0, i as int) =~= ids@);
    out
}

} // verus!
