//! The order of structures and functions: what something depends on stands before
//! it, and what depends on each other stands together.

use crate::graph::sorted_groups;
use crate::import_collection::{push_id, struct_dependencies};
use crate::ir::{IRNode, Node};
use crate::positions::{positions_of, take_position};
use crate::program::{Func, Function, Prog, Program, Struct, StructOf};
use crate::traverse::contains_id;
use crate::types::FunctionID;
use indexmap::IndexMap;
use vstd::prelude::*;

verus! {

/// The numbers of a list.
pub open spec fn numbers<T>(s: Seq<(usize, T)>) -> Seq<usize> {
    Seq::new(s.len(), |i: int| s[i].0)
}

/// Whether an edge leads from the first item to the second: the second depends on
/// the first, and both are there.
pub open spec fn is_edge<T>(
    items: Seq<(usize, T)>,
    dep: spec_fn(T, usize) -> bool,
    x: usize,
    y: usize,
) -> bool {
    numbers(items).contains(x) && exists|k: int|
        0 <= k < items.len() && (#[trigger] items[k]).0 == y && dep(items[k].1, x)
}

/// The edges between the items.
pub open spec fn edges_of<T>(
    items: Seq<(usize, T)>,
    dep: spec_fn(T, usize) -> bool,
) -> spec_fn(usize, usize) -> bool {
    |x: usize, y: usize| is_edge(items, dep, x, y)
}

/// The number of the group that an item of the `k`th group gets: that of its
/// group, where it depends on itself or the group has others; else none.
pub open spec fn group_label<T>(
    items: Seq<(usize, T)>,
    dep: spec_fn(T, usize) -> bool,
    g: Seq<usize>,
    k: int,
    x: usize,
) -> Option<usize> {
    if g.len() > 1 || is_edge(items, dep, x, x) {
        Some(k as usize)
    } else {
        None
    }
}

/// The items of the `k`th group, each with the number of its group.
pub open spec fn group_items<T>(
    items: Seq<(usize, T)>,
    dep: spec_fn(T, usize) -> bool,
    relabel: spec_fn(T, Option<usize>) -> T,
    g: Seq<usize>,
    k: int,
) -> Seq<(usize, T)> {
    Seq::new(
        g.len(),
        |j: int|
            (
                g[j],
                relabel(
                    crate::program::lookup(items, g[j])->0,
                    group_label(items, dep, g, k, g[j]),
                ),
            ),
    )
}

/// The items of the groups, one group behind the other.
pub open spec fn assembled<T>(
    items: Seq<(usize, T)>,
    dep: spec_fn(T, usize) -> bool,
    relabel: spec_fn(T, Option<usize>) -> T,
    gs: Seq<Seq<usize>>,
) -> Seq<(usize, T)>
    decreases gs.len(),
{
    if gs.len() == 0 {
        Seq::empty()
    } else {
        assembled(items, dep, relabel, gs.drop_last()) + group_items(
            items,
            dep,
            relabel,
            gs.last(),
            gs.len() - 1,
        )
    }
}

/// Whether the groups are those of the items that depend on each other, in an order
/// in which what an item depends on stands in its group or before it.
pub open spec fn orders<T>(
    items: Seq<(usize, T)>,
    dep: spec_fn(T, usize) -> bool,
    gs: Seq<Seq<usize>>,
) -> bool {
    crate::graph::is_grouping(numbers(items), edges_of(items, dep), gs)
        && crate::graph::follows_edges(edges_of(items, dep), gs)
}

/// Whether the second list has the items of the first in dependency order.
pub open spec fn is_ordered<T>(
    items: Seq<(usize, T)>,
    dep: spec_fn(T, usize) -> bool,
    relabel: spec_fn(T, Option<usize>) -> T,
    after: Seq<(usize, T)>,
) -> bool {
    exists|gs: Seq<Seq<usize>>| #[trigger]
        orders(items, dep, gs) && after == assembled(items, dep, relabel, gs)
}

/// The edges to an item from the first `n` of the numbers, in their order.
pub open spec fn edges_to<T>(
    ids: Seq<usize>,
    item: T,
    dep: spec_fn(T, usize) -> bool,
    y: usize,
    n: nat,
) -> Seq<(usize, usize)>
    decreases n,
{
    if n == 0 {
        Seq::empty()
    } else {
        let before = edges_to(ids, item, dep, y, (n - 1) as nat);
        if dep(item, ids[n - 1]) {
            before.push((ids[n - 1], y))
        } else {
            before
        }
    }
}

/// The edges to the first `k` items, in the order of the items, and for each in the
/// order of those that it depends on.
pub open spec fn edge_list<T>(
    items: Seq<(usize, T)>,
    dep: spec_fn(T, usize) -> bool,
    k: nat,
) -> Seq<(usize, usize)>
    decreases k,
{
    if k == 0 {
        Seq::empty()
    } else {
        edge_list(items, dep, (k - 1) as nat) + edges_to(
            numbers(items),
            items[k - 1].1,
            dep,
            items[k - 1].0,
            items.len(),
        )
    }
}

/// The groups of the items that depend on each other, in the order in which the graph
/// of the items is sorted.
pub open spec fn ordered_groups<T>(
    items: Seq<(usize, T)>,
    dep: spec_fn(T, usize) -> bool,
) -> Seq<Seq<usize>> {
    crate::graph::groups_in_order(numbers(items), edge_list(items, dep, items.len()))
}

/// The items in dependency order.
pub open spec fn in_order<T>(
    items: Seq<(usize, T)>,
    dep: spec_fn(T, usize) -> bool,
    relabel: spec_fn(T, Option<usize>) -> T,
) -> Seq<(usize, T)> {
    assembled(items, dep, relabel, ordered_groups(items, dep))
}

/// What a structure depends on: the structures that its fields mention.
pub open spec fn struct_dep() -> spec_fn(StructOf, usize) -> bool {
    |s: StructOf, id: usize| crate::import_collection::struct_names(s, id)
}

/// A structure with the number of its group.
pub open spec fn struct_label() -> spec_fn(StructOf, Option<usize>) -> StructOf {
    |s: StructOf, g: Option<usize>| StructOf { mutual_group_id: g, ..s }
}

/// What a function depends on: the functions that its body calls.
pub open spec fn function_dep() -> spec_fn(Func, usize) -> bool {
    |f: Func, id: usize| f.body.calls(id)
}

/// A function with the number of its group.
pub open spec fn function_label() -> spec_fn(Func, Option<usize>) -> Func {
    |f: Func, g: Option<usize>| Func { mutual_group_id: g, ..f }
}

/// Adds the functions that the expression calls.
fn add_calls(n: &IRNode, out: &mut Vec<FunctionID>)
    ensures
        forall|x: FunctionID| #[trigger]
            final(out)@.contains(x) <==> old(out)@.contains(x) || n@.calls(x),
    decreases n@,
{
    let ghost start = out@;
    if let IRNode::Call { function, .. } = n {
        push_id(out, *function);
    }
    assert(forall|x: FunctionID| #[trigger]
        out@.contains(x) <==> start.contains(x) || n@.is_call_of(seq![x])) by {
        assert(forall|x: FunctionID, y: FunctionID|
            (#[trigger] seq![x].contains(y)) == (x == y)) by {
            assert forall|x: FunctionID, y: FunctionID|
                (#[trigger] seq![x].contains(y)) == (x == y) by {
                assert(seq![x][0] == x);
            }
        }
    }
    let ks = n.children();
    let mut i: usize = 0;
    proof {
        n@.lemma_kids_decrease();
    }
    while i < ks.len()
        invariant
            i <= ks.len(),
            ks@.len() == n@.kids().len(),
            forall|j: int| 0 <= j < ks@.len() ==> (#[trigger] ks@[j])@ == n@.kids()[j],
            forall|x: FunctionID| #[trigger]
                out@.contains(x) <==> start.contains(x) || n@.is_call_of(seq![x]) || exists|j: int|
                    0 <= j < i && (#[trigger] n@.kids()[j]).calls(x),
            forall|j: int| 0 <= j < n@.kids().len() ==> decreases_to!(
                n@ => #[trigger] n@.kids()[j]
            ),
        decreases ks.len() - i,
    {
        assert(ks@[i as int]@ == n@.kids()[i as int]);
        let ghost before = out@;
        add_calls(ks[i], out);
        assert forall|x: FunctionID| #[trigger]
            out@.contains(x) <==> start.contains(x) || n@.is_call_of(seq![x]) || exists|j: int|
                0 <= j < i + 1 && (#[trigger] n@.kids()[j]).calls(x) by {
            assert(out@.contains(x) <==> before.contains(x) || n@.kids()[i as int].calls(x));
        }
        i += 1;
    }
    assert forall|x: FunctionID| #[trigger] out@.contains(x) <==> start.contains(x) || n@.calls(
        x,
    ) by {
        let p = |m: Node| m.is_call_of(seq![x]);
        assert(n@.calls(x) == n@.any(p));
        assert(forall|j: int| 0 <= j < n@.kids().len() ==> (#[trigger] n@.kids()[j]).calls(x)
            == n@.kids()[j].any(p));
        if n@.is_call_of(seq![x]) {
            assert(p(n@));
        }
        if exists|j: int| 0 <= j < i && (#[trigger] n@.kids()[j]).calls(x) {
            let j = choose|j: int| 0 <= j < i && (#[trigger] n@.kids()[j]).calls(x);
            assert(n@.kids()[j].any(p));
            assert(n@.any_kid(p));
        }
        if n@.any(p) && !p(n@) {
            assert(n@.any_kid(p));
            let j = choose|j: int| 0 <= j < n@.kids().len() && (#[trigger] n@.kids()[j]).any(p);
            assert(n@.kids()[j].calls(x));
        }
    }
}

/// The number of the first `n` of the numbers that the item depends on.
pub open spec fn dep_count<T>(
    ids: Seq<usize>,
    item: T,
    dep: spec_fn(T, usize) -> bool,
    n: nat,
) -> nat
    decreases n,
{
    if n == 0 {
        0
    } else {
        dep_count(ids, item, dep, (n - 1) as nat) + if dep(item, ids[n - 1]) {
            1nat
        } else {
            0nat
        }
    }
}

/// The number of edges to the first `k` items.
pub open spec fn edge_count<T>(
    items: Seq<(usize, T)>,
    dep: spec_fn(T, usize) -> bool,
    k: nat,
) -> nat
    decreases k,
{
    if k == 0 {
        0
    } else {
        edge_count(items, dep, (k - 1) as nat) + dep_count(
            numbers(items),
            items[k - 1].1,
            dep,
            items.len(),
        )
    }
}

/// Whether the list has just the edges to the first `k` items.
pub open spec fn lists_edges<T>(
    items: Seq<(usize, T)>,
    dep: spec_fn(T, usize) -> bool,
    k: int,
    edges: Seq<(usize, usize)>,
) -> bool {
    forall|x: usize, y: usize| #[trigger]
        edges.contains((x, y)) <==> numbers(items).contains(x) && exists|j: int|
            0 <= j < k && (#[trigger] items[j]).0 == y && dep(items[j].1, x)
}

/// Adds the edges to one item, from those that it depends on.
fn add_edges<T>(
    ids: &Vec<usize>,
    deps: &Vec<usize>,
    Ghost(items): Ghost<Seq<(usize, T)>>,
    Ghost(dep): Ghost<spec_fn(T, usize) -> bool>,
    k: usize,
    edges: &mut Vec<(usize, usize)>,
)
    requires
        k < items.len(),
        ids@ == numbers(items),
        forall|x: usize| #[trigger] deps@.contains(x) <==> dep(items[k as int].1, x),
        lists_edges(items, dep, k as int, old(edges)@),
        old(edges)@.len() == edge_count(items, dep, k as nat),
        old(edges)@ == edge_list(items, dep, k as nat),
    ensures
        final(edges)@ == edge_list(items, dep, (k + 1) as nat),
        lists_edges(items, dep, k + 1, final(edges)@),
        final(edges)@.len() == edge_count(items, dep, (k + 1) as nat),
{
    let ghost start = edges@;
    let ghost item = items[k as int].1;
    let y = ids[k];
    let mut i: usize = 0;
    assert(start + edges_to(ids@, item, dep, y, 0) =~= start);
    while i < ids.len()
        invariant
            edges@ == start + edges_to(ids@, item, dep, y, i as nat),
            i <= ids.len(),
            ids@ == numbers(items),
            item == items[k as int].1,
            forall|x: usize| #[trigger] deps@.contains(x) <==> dep(item, x),
            edges@.len() == start.len() + dep_count(ids@, item, dep, i as nat),
            forall|x: usize, z: usize| #[trigger]
                edges@.contains((x, z)) <==> start.contains((x, z)) || (z == y && dep(item, x)
                    && exists|j: int| 0 <= j < i && #[trigger] ids@[j] == x),
        decreases ids.len() - i,
    {
        let ghost before = edges@;
        let x = ids[i];
        if contains_id(deps, x) {
            edges.push((x, y));
        }
        assert(deps@.contains(x) <==> dep(item, x));
        assert(edges@ =~= start + edges_to(ids@, item, dep, y, (i + 1) as nat));
        assert forall|u: usize, z: usize| #[trigger]
            edges@.contains((u, z)) <==> start.contains((u, z)) || (z == y && dep(item, u)
                && exists|j: int| 0 <= j < i + 1 && #[trigger] ids@[j] == u) by {
            if before.contains((u, z)) {
                let m = choose|m: int| 0 <= m < before.len() && before[m] == (u, z);
                assert(edges@[m] == (u, z));
            }
            if dep(item, x) && u == x && z == y {
                assert(edges@[before.len() as int] == (u, z));
            }
            assert(before.contains((u, z)) <==> start.contains((u, z)) || (z == y && dep(item, u)
                && exists|j: int| 0 <= j < i && #[trigger] ids@[j] == u));
        }
        i += 1;
    }
    assert forall|u: usize, z: usize| #[trigger]
        edges@.contains((u, z)) <==> numbers(items).contains(u) && exists|j: int|
            0 <= j < k + 1 && (#[trigger] items[j]).0 == z && dep(items[j].1, u) by {
        assert(start.contains((u, z)) <==> numbers(items).contains(u) && exists|j: int|
            0 <= j < k && (#[trigger] items[j]).0 == z && dep(items[j].1, u));
        if ids@.contains(u) {
            let j = choose|j: int| 0 <= j < ids@.len() && ids@[j] == u;
            assert(0 <= j < i && ids@[j] == u);
        }
        assert(items[k as int].0 == y);
    }
}

/// The groups of the items, from all edges between them.
fn order_items<T>(
    ids: &Vec<usize>,
    edges: &Vec<(usize, usize)>,
    Ghost(items): Ghost<Seq<(usize, T)>>,
    Ghost(dep): Ghost<spec_fn(T, usize) -> bool>,
) -> (r: Vec<Vec<usize>>)
    requires
        ids@ == numbers(items),
        ids@.no_duplicates(),
        ids@.len() < u32::MAX,
        edges@.len() < u32::MAX,
        lists_edges(items, dep, items.len() as int, edges@),
        edges@ == edge_list(items, dep, items.len()),
    ensures
        crate::graph::list_views(r@) == ordered_groups(items, dep),
        orders(items, dep, crate::graph::list_views(r@)),
{
    assert forall|i: int| 0 <= i < edges@.len() implies ids@.contains((#[trigger] edges@[i]).0)
        && ids@.contains(edges@[i].1) by {
        let (x, y) = edges@[i];
        assert(edges@.contains((x, y)));
        let j = choose|j: int|
            0 <= j < items.len() && (#[trigger] items[j]).0 == y && dep(items[j].1, x);
        assert(ids@[j] == y);
    }
    assert(crate::graph::edge_set(edges@) =~= edges_of(items, dep)) by {
        assert forall|x: usize, y: usize| #[trigger]
            crate::graph::edge_set(edges@)(x, y) == edges_of(items, dep)(x, y) by {
            assert(edges@.contains((x, y)) <==> is_edge(items, dep, x, y));
        }
    }
    sorted_groups(ids, edges)
}

/// The number of the group that an item gets.
fn label_of(edges: &Vec<(usize, usize)>, size: usize, k: usize, x: usize) -> (r: Option<usize>)
    ensures
        r == if size > 1 || edges@.contains((x, x)) {
            Some(k)
        } else {
            None
        },
{
    if size > 1 {
        return Some(k);
    }
    let mut i: usize = 0;
    while i < edges.len()
        invariant
            i <= edges.len(),
            forall|j: int| 0 <= j < i ==> #[trigger] edges@[j] != (x, x),
        decreases edges.len() - i,
    {
        if edges[i].0 == x && edges[i].1 == x {
            assert(edges@[i as int] == (x, x));
            return Some(k);
        }
        i += 1;
    }
    None
}

/// What can be put in dependency order.
pub trait Dependable: Sized {
    /// What an item holds.
    type Held;

    /// What the item holds.
    spec fn held(&self) -> Self::Held;

    /// Whether an item depends on that with the number.
    spec fn needs(h: Self::Held, id: usize) -> bool;

    /// The item with the number of its group.
    spec fn labelled(h: Self::Held, g: Option<usize>) -> Self::Held;

    /// What the item depends on, each once.
    fn dependencies(&self) -> (r: Vec<usize>)
        ensures
            forall|x: usize| #[trigger] r@.contains(x) <==> Self::needs(self.held(), x),
    ;

    /// The item with the number of its group.
    fn with_group(self, g: Option<usize>) -> (r: Self)
        ensures
            r.held() == Self::labelled(self.held(), g),
    ;
}

impl Dependable for Struct {
    type Held = StructOf;

    open spec fn held(&self) -> StructOf {
        self@
    }

    open spec fn needs(h: StructOf, id: usize) -> bool {
        crate::import_collection::struct_names(h, id)
    }

    open spec fn labelled(h: StructOf, g: Option<usize>) -> StructOf {
        StructOf { mutual_group_id: g, ..h }
    }

    fn dependencies(&self) -> (r: Vec<usize>) {
        struct_dependencies(self)
    }

    fn with_group(self, g: Option<usize>) -> (r: Self) {
        Struct { mutual_group_id: g, ..self }
    }
}

impl Dependable for Function {
    type Held = Func;

    open spec fn held(&self) -> Func {
        self@
    }

    open spec fn needs(h: Func, id: usize) -> bool {
        h.body.calls(id)
    }

    open spec fn labelled(h: Func, g: Option<usize>) -> Func {
        Func { mutual_group_id: g, ..h }
    }

    fn dependencies(&self) -> (r: Vec<usize>) {
        let mut out: Vec<usize> = Vec::new();
        add_calls(&self.body, &mut out);
        out
    }

    fn with_group(self, g: Option<usize>) -> (r: Self) {
        Function { mutual_group_id: g, ..self }
    }
}

/// What each of the items holds, with its number.
pub open spec fn held_views<T: Dependable>(s: Seq<(usize, T)>) -> Seq<(usize, T::Held)> {
    Seq::new(s.len(), |i: int| (s[i].0, s[i].1.held()))
}

/// What an item depends on.
pub open spec fn dep_of<T: Dependable>() -> spec_fn(T::Held, usize) -> bool {
    |h: T::Held, id: usize| T::needs(h, id)
}

/// An item with the number of its group.
pub open spec fn label<T: Dependable>() -> spec_fn(T::Held, Option<usize>) -> T::Held {
    |h: T::Held, g: Option<usize>| T::labelled(h, g)
}

/// Whether a list can be put in dependency order: no number stands twice, and there
/// are not too many items and edges for the graph.
pub open spec fn can_order<T>(items: Seq<(usize, T)>, dep: spec_fn(T, usize) -> bool) -> bool {
    numbers(items).no_duplicates() && items.len() < u32::MAX && edge_count(
        items,
        dep,
        items.len(),
    ) < u32::MAX
}

/// The numbers of the items.
fn numbers_of<T>(items: &Vec<(usize, T)>) -> (r: Vec<usize>)
    ensures
        r@ == numbers(items@),
{
    let mut out: Vec<usize> = Vec::new();
    let mut i: usize = 0;
    while i < items.len()
        invariant
            i <= items.len(),
            out@.len() == i,
            forall|j: int| 0 <= j < i ==> #[trigger] out@[j] == items@[j].0,
        decreases items.len() - i,
    {
        out.push(items[i].0);
        i += 1;
    }
    assert(out@ =~= numbers(items@));
    out
}

/// All edges between the items.
fn find_edges<T: Dependable>(items: &Vec<(usize, T)>, ids: &Vec<usize>) -> (r: Vec<
    (usize, usize),
>)
    requires
        ids@ == numbers(items@),
    ensures
        lists_edges(held_views(items@), dep_of::<T>(), items@.len() as int, r@),
        r@.len() == edge_count(held_views(items@), dep_of::<T>(), items@.len()),
        r@ == edge_list(held_views(items@), dep_of::<T>(), items@.len()),
{
    let ghost vs = held_views(items@);
    let ghost dep = dep_of::<T>();
    assert(numbers(vs) =~= ids@);
    let mut edges: Vec<(usize, usize)> = Vec::new();
    let mut k: usize = 0;
    while k < items.len()
        invariant
            k <= items.len(),
            vs == held_views(items@),
            dep == dep_of::<T>(),
            ids@ == numbers(vs),
            lists_edges(vs, dep, k as int, edges@),
            edges@.len() == edge_count(vs, dep, k as nat),
            edges@ == edge_list(vs, dep, k as nat),
        decreases items.len() - k,
    {
        let deps = items[k].1.dependencies();
        assert forall|x: usize| #[trigger] deps@.contains(x) <==> dep(vs[k as int].1, x) by {
            assert(T::needs(items@[k as int].1.held(), x) == dep(vs[k as int].1, x));
        }
        add_edges::<T::Held>(ids, &deps, Ghost(vs), Ghost(dep), k, &mut edges);
        k += 1;
    }
    edges
}

/// Takes what stands at a position.
fn take_slot<T>(slots: &mut Vec<Option<T>>, i: usize) -> (r: Option<T>)
    requires
        i < old(slots)@.len(),
    ensures
        r == old(slots)@[i as int],
        final(slots)@ == old(slots)@.update(i as int, None),
{
    let mut out: Option<T> = None;
    std::mem::swap(&mut out, &mut slots[i]);
    out
}

/// The items from the last to the first, to be taken one by one.
fn open_slots<T>(items: Vec<(usize, T)>) -> (r: Vec<Option<T>>)
    ensures
        r@.len() == items@.len(),
        forall|i: int|
            0 <= i < items@.len() ==> r@[items@.len() - 1 - i] == Some((#[trigger] items@[i]).1),
{
    let ghost all = items@;
    let mut rest = items;
    let mut out: Vec<Option<T>> = Vec::new();
    while rest.len() > 0
        invariant
            rest@.len() + out@.len() == all.len(),
            rest@ == all.subrange(0, rest@.len() as int),
            forall|j: int|
                0 <= j < out@.len() ==> #[trigger] out@[j] == Some(all[all.len() - 1 - j].1),
        decreases rest@.len(),
    {
        let ghost before = rest@;
        match rest.pop() {
            Some((_id, t)) => {
                assert(t == all[before.len() - 1].1);
                out.push(Some(t));
            },
            None => {},
        }
        assert(rest@ =~= all.subrange(0, rest@.len() as int));
    }
    assert forall|i: int| 0 <= i < all.len() implies out@[all.len() - 1 - i] == Some(
        (#[trigger] all[i]).1,
    ) by {
        let j = all.len() - 1 - i;
        assert(out@[j] == Some(all[all.len() - 1 - j].1));
    }
    out
}

/// What an item is, by its number.
proof fn lemma_found<T>(items: Seq<(usize, T)>, i: int)
    requires
        0 <= i < items.len(),
        numbers(items).no_duplicates(),
    ensures
        crate::program::lookup(items, items[i].0) == Some(items[i].1),
{
    let id = items[i].0;
    let ns = numbers(items);
    assert forall|j: int| 0 <= j < i implies (#[trigger] items[j]).0 != id by {
        assert(ns[j] != ns[i]);
    }
    assert(crate::program::is_slot(items, id, i));
    crate::program::lemma_slot(items, id, i);
}

/// The numbers of the items of the groups are those in the groups.
proof fn lemma_assembled_numbers<T>(
    items: Seq<(usize, T)>,
    dep: spec_fn(T, usize) -> bool,
    relabel: spec_fn(T, Option<usize>) -> T,
    gs: Seq<Seq<usize>>,
    x: usize,
)
    ensures
        numbers(assembled(items, dep, relabel, gs)).contains(x) <==> exists|a: int| #[trigger]
            crate::graph::in_group(gs, a, x),
    decreases gs.len(),
{
    if gs.len() > 0 {
        let front = gs.drop_last();
        lemma_assembled_numbers(items, dep, relabel, front, x);
        let head = assembled(items, dep, relabel, front);
        let tail = group_items(items, dep, relabel, gs.last(), gs.len() - 1);
        let all = numbers(head + tail);
        assert(all =~= numbers(head) + gs.last());
        if all.contains(x) {
            let i = choose|i: int| 0 <= i < all.len() && all[i] == x;
            if i < head.len() {
                assert(numbers(head)[i] == x);
                let a = choose|a: int| #[trigger] crate::graph::in_group(front, a, x);
                assert(crate::graph::in_group(gs, a, x));
            } else {
                assert(gs.last()[i - head.len()] == x);
                assert(crate::graph::in_group(gs, gs.len() - 1, x));
            }
        }
        if exists|a: int| #[trigger] crate::graph::in_group(gs, a, x) {
            let a = choose|a: int| #[trigger] crate::graph::in_group(gs, a, x);
            if a < gs.len() - 1 {
                assert(crate::graph::in_group(front, a, x));
                let i = choose|i: int| 0 <= i < numbers(head).len() && numbers(head)[i] == x;
                assert(all[i] == x);
            } else {
                let j = choose|j: int| 0 <= j < gs.last().len() && gs.last()[j] == x;
                assert(all[head.len() + j] == x);
            }
        }
    }
}

/// What is left to be placed: for each number that was not placed, its position and
/// the item there.
spec fn is_left<T: Dependable>(
    items: Seq<(usize, T)>,
    at: Map<usize, usize>,
    slots: Seq<Option<T>>,
    placed: Seq<usize>,
) -> bool {
    &&& slots.len() == items.len()
    &&& forall|x: usize| #[trigger]
        at.dom().contains(x) <==> numbers(items).contains(x) && !placed.contains(x)
    &&& forall|x: usize| #[trigger]
        at.dom().contains(x) ==> at[x] < items.len() && items[at[x] as int].0 == x && slots[
        items.len() - 1 - at[x]] == Some(items[at[x] as int].1)
}

/// Takes the item with a number out of what is left.
fn take_item<T: Dependable>(
    at: &mut IndexMap<usize, usize>,
    slots: &mut Vec<Option<T>>,
    x: usize,
    Ghost(items): Ghost<Seq<(usize, T)>>,
    Ghost(placed): Ghost<Seq<usize>>,
) -> (r: Option<T>)
    requires
        numbers(items).no_duplicates(),
        is_left(items, crate::positions::entries(*old(at)), old(slots)@, placed),
        numbers(items).contains(x),
        !placed.contains(x),
    ensures
        is_left(items, crate::positions::entries(*final(at)), final(slots)@, placed.push(x)),
        r is Some,
        crate::program::lookup(held_views(items), x) == Some((r->0).held()),
{
    let ghost m = crate::positions::entries(*at);
    let ghost before = slots@;
    assert(m.dom().contains(x));
    let n = slots.len();
    match take_position(at, x) {
        Some(i) => {
            let t = take_slot(slots, n - 1 - i);
            proof {
                let ghost m2 = crate::positions::entries(*at);
                let later = placed.push(x);
                assert forall|y: usize| #[trigger] m2.dom().contains(y) <==> numbers(
                    items,
                ).contains(y) && !later.contains(y) by {
                    assert(later.contains(y) <==> placed.contains(y) || y == x) by {
                        if placed.contains(y) {
                            let k = choose|k: int| 0 <= k < placed.len() && placed[k] == y;
                            assert(later[k] == y);
                        }
                        assert(later[placed.len() as int] == x);
                    }
                    assert(m.dom().contains(y) <==> numbers(items).contains(y) && !placed.contains(
                        y,
                    ));
                }
                assert forall|y: usize| #[trigger] m2.dom().contains(y) implies m2[y]
                    < items.len() && items[m2[y] as int].0 == y && slots@[items.len() - 1 - m2[y]]
                    == Some(items[m2[y] as int].1) by {
                    assert(m.dom().contains(y));
                    assert(m2[y] == m[y]);
                }
                let vs = held_views(items);
                assert(numbers(vs) =~= numbers(items));
                lemma_found(vs, i as int);
            }
            t
        },
        None => None,
    }
}

/// Puts the items of a list in dependency order.
fn topological_sort<T: Dependable>(items: Vec<(usize, T)>) -> (r: Vec<(usize, T)>)
    requires
        can_order(held_views(items@), dep_of::<T>()),
    ensures
        held_views(r@) == in_order(held_views(items@), dep_of::<T>(), label::<T>()),
        is_ordered(held_views(items@), dep_of::<T>(), label::<T>(), held_views(r@)),
{
    let ghost all = items@;
    let ghost vs = held_views(items@);
    let ghost dep = dep_of::<T>();
    let ghost rel = label::<T>();
    let ids = numbers_of(&items);
    assert(numbers(vs) =~= ids@);
    let mut at = positions_of(&ids);
    let edges = find_edges(&items, &ids);
    let groups = order_items::<T::Held>(&ids, &edges, Ghost(vs), Ghost(dep));
    let ghost gs = crate::graph::list_views(groups@);
    let mut slots = open_slots(items);
    let mut out: Vec<(usize, T)> = Vec::new();
    proof {
        let m = crate::positions::entries(at);
        let none = Seq::<usize>::empty();
        assert(numbers(held_views(out@)) =~= none);
        assert forall|x: usize| #[trigger] m.dom().contains(x) implies m[x] < all.len() && all[m[
            x
        ] as int].0 == x && slots@[all.len() - 1 - m[x]] == Some(all[m[x] as int].1) by {
            assert(ids@[m[x] as int] == x);
            assert(all[m[x] as int].0 == x);
        }
        assert(is_left(all, m, slots@, none));
        assert(gs.subrange(0, 0) =~= Seq::empty());
        assert(held_views(out@) =~= assembled(vs, dep, rel, gs.subrange(0, 0)));
    }
    let mut a: usize = 0;
    while a < groups.len()
        invariant
            a <= groups.len(),
            vs == held_views(all),
            dep == dep_of::<T>(),
            rel == label::<T>(),
            gs == crate::graph::list_views(groups@),
            ids@ == numbers(vs),
            numbers(all) == numbers(vs),
            numbers(vs).no_duplicates(),
            orders(vs, dep, gs),
            lists_edges(vs, dep, vs.len() as int, edges@),
            held_views(out@) == assembled(vs, dep, rel, gs.subrange(0, a as int)),
            is_left(all, crate::positions::entries(at), slots@, numbers(held_views(out@))),
        decreases groups.len() - a,
    {
        let ghost g = gs[a as int];
        let ghost head = held_views(out@);
        let ghost part = group_items(vs, dep, rel, g, a as int);
        let size = groups[a].len();
        assert(g == groups@[a as int]@);
        let mut j: usize = 0;
        assert(head + part.subrange(0, 0) =~= head);
        while j < size
            invariant
                j <= size,
                a < groups@.len(),
                size == g.len(),
                g == groups@[a as int]@,
                vs == held_views(all),
                dep == dep_of::<T>(),
                rel == label::<T>(),
                gs == crate::graph::list_views(groups@),
                g == gs[a as int],
                ids@ == numbers(vs),
                numbers(all) == numbers(vs),
                numbers(vs).no_duplicates(),
                orders(vs, dep, gs),
                lists_edges(vs, dep, vs.len() as int, edges@),
                head == assembled(vs, dep, rel, gs.subrange(0, a as int)),
                part == group_items(vs, dep, rel, g, a as int),
                held_views(out@) == head + part.subrange(0, j as int),
                is_left(all, crate::positions::entries(at), slots@, numbers(held_views(out@))),
            decreases size - j,
        {
            let x = groups[a][j];
            let ghost placed = numbers(held_views(out@));
            proof {
                assert(crate::graph::in_group(gs, a as int, x));
                assert(numbers(vs).contains(x));
                if placed.contains(x) {
                    let i = choose|i: int| 0 <= i < placed.len() && placed[i] == x;
                    if i < head.len() {
                        assert(numbers(head)[i] == x);
                        lemma_assembled_numbers(vs, dep, rel, gs.subrange(0, a as int), x);
                        let b = choose|b: int| #[trigger]
                            crate::graph::in_group(gs.subrange(0, a as int), b, x);
                        assert(crate::graph::in_group(gs, b, x));
                        crate::graph::lemma_reaches_itself(edges_of(vs, dep), x);
                    } else {
                        assert(g[i - head.len()] == x);
                        assert(g.no_duplicates());
                    }
                }
            }
            let found = take_item::<T>(&mut at, &mut slots, x, Ghost(all), Ghost(placed));
            let mark = label_of(&edges, size, a, x);
            assert(mark == group_label(vs, dep, g, a as int, x)) by {
                assert(edges@.contains((x, x)) <==> is_edge(vs, dep, x, x));
            }
            let ghost before = held_views(out@);
            match found {
                Some(t) => {
                    let item = t.with_group(mark);
                    out.push((x, item));
                    assert(held_views(out@) =~= before.push((x, item.held())));
                    assert(part[j as int] == (x, item.held())) by {
                        assert(rel(t.held(), mark) == T::labelled(t.held(), mark));
                    }
                    assert(held_views(out@) =~= head + part.subrange(0, j + 1));
                    assert(numbers(held_views(out@)) =~= placed.push(x));
                },
                None => {},
            }
            j += 1;
        }
        proof {
            let next = gs.subrange(0, a + 1);
            assert(next.drop_last() =~= gs.subrange(0, a as int));
            assert(next.last() == g);
            assert(part.subrange(0, j as int) =~= part);
        }
        a += 1;
    }
    assert(gs.subrange(0, a as int) =~= gs);
    assert(orders(vs, dep, gs));
    out
}

/// Puts structures and functions in dependency order: what one depends on stands
/// before it, unless they depend on each other. Those that do stand together and
/// get the number of their group, as does one that depends on itself. Of the orders that
/// are possible it is the one in which the graph of the items is sorted.
pub fn order_by_dependencies(program: &mut Program)
    requires
        can_order(old(program)@.structs, struct_dep()),
        can_order(old(program)@.functions, function_dep()),
    ensures
        final(program)@.structs == in_order(
            old(program)@.structs,
            struct_dep(),
            struct_label(),
        ),
        final(program)@.functions == in_order(
            old(program)@.functions,
            function_dep(),
            function_label(),
        ),
        is_ordered(
            old(program)@.structs,
            struct_dep(),
            struct_label(),
            final(program)@.structs,
        ),
        is_ordered(
            old(program)@.functions,
            function_dep(),
            function_label(),
            final(program)@.functions,
        ),
        final(program)@ == (Prog {
            structs: final(program)@.structs,
            functions: final(program)@.functions,
            ..old(program)@
        }),
{
    let ghost p = program@;
    proof {
        assert(held_views(program.structs@) =~= p.structs);
        assert(held_views(program.functions@) =~= p.functions);
        assert(dep_of::<Struct>() =~= struct_dep());
        assert(dep_of::<Function>() =~= function_dep());
        assert(label::<Struct>() =~= struct_label());
        assert(label::<Function>() =~= function_label());
    }
    let mut structs: Vec<(usize, Struct)> = Vec::new();
    std::mem::swap(&mut structs, &mut program.structs);
    let sorted = topological_sort(structs);
    program.structs = sorted;
    assert(held_views(program.structs@) =~= program@.structs);
    let mut functions: Vec<(usize, Function)> = Vec::new();
    std::mem::swap(&mut functions, &mut program.functions);
    let sorted = topological_sort(functions);
    program.functions = sorted;
    assert(held_views(program.functions@) =~= program@.functions);
}

/// The items of groups that are apart stand once each, and there are no more groups than
/// items.
proof fn lemma_assembled_apart<T>(
    items: Seq<(usize, T)>,
    dep: spec_fn(T, usize) -> bool,
    relabel: spec_fn(T, Option<usize>) -> T,
    gs: Seq<Seq<usize>>,
)
    requires
        are_apart(gs),
        forall|a: int|
            0 <= a < gs.len() ==> (#[trigger] gs[a]).len() > 0 && gs[a].no_duplicates(),
    ensures
        numbers(assembled(items, dep, relabel, gs)).no_duplicates(),
        gs.len() <= assembled(items, dep, relabel, gs).len(),
    decreases gs.len(),
{
    if gs.len() > 0 {
        let front = gs.drop_last();
        let last = gs.len() - 1;
        let head = assembled(items, dep, relabel, front);
        let all = numbers(assembled(items, dep, relabel, gs));
        assert forall|a: int| 0 <= a < front.len() implies (#[trigger] front[a]).len() > 0
            && front[a].no_duplicates() by {
            assert(front[a] == gs[a]);
        }
        lemma_front_apart(gs);
        lemma_assembled_apart(items, dep, relabel, front);
        assert(gs[last] == gs.last());
        assert(all =~= numbers(head) + gs.last());
        assert forall|i: int, j: int| 0 <= i < j < all.len() implies all[i] != all[j] by {
            if j < head.len() {
                assert(numbers(head)[i] != numbers(head)[j]);
            } else if i >= head.len() {
                assert(gs.last()[i - head.len()] != gs.last()[j - head.len()]);
            } else if all[i] == all[j] {
                let x = all[i];
                lemma_assembled_numbers(items, dep, relabel, front, x);
                assert(numbers(head)[i] == x);
                let a = choose|a: int| #[trigger] crate::graph::in_group(front, a, x);
                assert(gs.last()[j - head.len()] == x);
                assert(crate::graph::in_group(gs, a, x) && crate::graph::in_group(gs, last, x));
            }
        }
    }
}

/// Whether no two groups share a number.
pub open spec fn are_apart(gs: Seq<Seq<usize>>) -> bool {
    forall|a: int, b: int, x: usize| #[trigger]
        crate::graph::in_group(gs, a, x) && #[trigger] crate::graph::in_group(gs, b, x) ==> a == b
}

/// The groups but the last are apart if all are.
proof fn lemma_front_apart(gs: Seq<Seq<usize>>)
    requires
        are_apart(gs),
        gs.len() > 0,
    ensures
        are_apart(gs.drop_last()),
{
    let front = gs.drop_last();
    assert forall|a: int, b: int, x: usize| #[trigger]
        crate::graph::in_group(front, a, x) && #[trigger] crate::graph::in_group(front, b, x)
        implies a == b by {
        assert(crate::graph::in_group(gs, a, x) && crate::graph::in_group(gs, b, x));
    }
}

/// The groups of the items are apart.
proof fn lemma_orders_apart<T>(
    items: Seq<(usize, T)>,
    dep: spec_fn(T, usize) -> bool,
    gs: Seq<Seq<usize>>,
)
    requires
        orders(items, dep, gs),
    ensures
        are_apart(gs),
{
    let e = edges_of(items, dep);
    assert forall|a: int, b: int, x: usize| #[trigger]
        crate::graph::in_group(gs, a, x) && #[trigger] crate::graph::in_group(gs, b, x)
        implies a == b by {
        crate::graph::lemma_reaches_itself(e, x);
    }
}

/// Each item of the groups is that with its number, with the number of its group.
proof fn lemma_assembled_at<T>(
    items: Seq<(usize, T)>,
    dep: spec_fn(T, usize) -> bool,
    relabel: spec_fn(T, Option<usize>) -> T,
    gs: Seq<Seq<usize>>,
    i: int,
) -> (a: int)
    requires
        0 <= i < assembled(items, dep, relabel, gs).len(),
    ensures
        ({
            let (x, item) = assembled(items, dep, relabel, gs)[i];
            crate::graph::in_group(gs, a, x) && item == relabel(
                crate::program::lookup(items, x)->0,
                group_label(items, dep, gs[a], a, x),
            )
        }),
    decreases gs.len(),
{
    let front = gs.drop_last();
    let head = assembled(items, dep, relabel, front);
    if i < head.len() {
        let a = lemma_assembled_at(items, dep, relabel, front, i);
        assert(gs[a] == front[a]);
        a
    } else {
        let a = gs.len() - 1;
        assert(gs[a][i - head.len()] == assembled(items, dep, relabel, gs)[i].0);
        a
    }
}

/// Ordering keeps the items: each number stands as often as it did, and each item is as
/// it was but for the number of its group.
pub proof fn law_ordering_keeps_items<T>(
    items: Seq<(usize, T)>,
    dep: spec_fn(T, usize) -> bool,
    relabel: spec_fn(T, Option<usize>) -> T,
    after: Seq<(usize, T)>,
)
    requires
        is_ordered(items, dep, relabel, after),
        numbers(items).no_duplicates(),
    ensures
        numbers(after).to_multiset() == numbers(items).to_multiset(),
        after.len() == items.len(),
        forall|i: int|
            0 <= i < after.len() ==> exists|g: Option<usize>|
                (#[trigger] after[i]).1 == #[trigger] relabel(
                    crate::program::lookup(items, after[i].0)->0,
                    g,
                ),
{
    let gs = choose|gs: Seq<Seq<usize>>| #[trigger]
        orders(items, dep, gs) && after == assembled(items, dep, relabel, gs);
    let (a, b) = (numbers(after), numbers(items));
    lemma_orders_apart(items, dep, gs);
    lemma_assembled_apart(items, dep, relabel, gs);
    a.to_multiset_ensures();
    b.to_multiset_ensures();
    a.lemma_multiset_has_no_duplicates();
    b.lemma_multiset_has_no_duplicates();
    assert forall|x: usize| a.to_multiset().count(x) == b.to_multiset().count(x) by {
        lemma_assembled_numbers(items, dep, relabel, gs, x);
        assert(a.contains(x) <==> b.contains(x));
        assert(a.contains(x) <==> a.to_multiset().count(x) > 0);
        assert(b.contains(x) <==> b.to_multiset().count(x) > 0);
    }
    assert(a.to_multiset() =~= b.to_multiset());
    assert forall|i: int| 0 <= i < after.len() implies exists|g: Option<usize>|
        (#[trigger] after[i]).1 == #[trigger] relabel(
            crate::program::lookup(items, after[i].0)->0,
            g,
        ) by {
        let k = lemma_assembled_at(items, dep, relabel, gs, i);
        let x = after[i].0;
        assert(after[i].1 == relabel(
            crate::program::lookup(items, x)->0,
            group_label(items, dep, gs[k], k, x),
        ));
    }
}

/// Where an item of an earlier group stands.
proof fn lemma_group_order<T>(
    items: Seq<(usize, T)>,
    dep: spec_fn(T, usize) -> bool,
    relabel: spec_fn(T, Option<usize>) -> T,
    gs: Seq<Seq<usize>>,
    a: int,
    b: int,
    i: int,
    j: int,
)
    requires
        are_apart(gs),
        0 <= i < assembled(items, dep, relabel, gs).len(),
        0 <= j < assembled(items, dep, relabel, gs).len(),
        crate::graph::in_group(gs, a, assembled(items, dep, relabel, gs)[i].0),
        crate::graph::in_group(gs, b, assembled(items, dep, relabel, gs)[j].0),
        a < b,
    ensures
        i < j,
    decreases gs.len(),
{
    let all = assembled(items, dep, relabel, gs);
    let front = gs.drop_last();
    let head = assembled(items, dep, relabel, front);
    let x = all[i].0;
    let y = all[j].0;
    let last = gs.len() - 1;
    if i >= head.len() {
        assert(gs.last()[i - head.len()] == x);
        assert(crate::graph::in_group(gs, last, x) && crate::graph::in_group(gs, a, x));
    }
    if j < head.len() {
        lemma_assembled_numbers(items, dep, relabel, front, y);
        assert(numbers(head)[j] == y);
        let c = choose|c: int| #[trigger] crate::graph::in_group(front, c, y);
        assert(crate::graph::in_group(gs, c, y) && crate::graph::in_group(gs, b, y));
        assert(crate::graph::in_group(front, b, y));
        assert(crate::graph::in_group(front, a, x));
        lemma_front_apart(gs);
        lemma_group_order(items, dep, relabel, front, a, b, i, j);
    }
}

/// What an item depends on stands before it, unless each depends on the other, if
/// only through others.
pub proof fn law_dependencies_come_first<T>(
    items: Seq<(usize, T)>,
    dep: spec_fn(T, usize) -> bool,
    relabel: spec_fn(T, Option<usize>) -> T,
    after: Seq<(usize, T)>,
    i: int,
    j: int,
)
    requires
        is_ordered(items, dep, relabel, after),
        0 <= i < after.len(),
        0 <= j < after.len(),
        is_edge(items, dep, after[i].0, after[j].0),
    ensures
        i < j || (crate::graph::reaches(edges_of(items, dep), after[i].0, after[j].0)
            && crate::graph::reaches(edges_of(items, dep), after[j].0, after[i].0)),
{
    let gs = choose|gs: Seq<Seq<usize>>| #[trigger]
        orders(items, dep, gs) && after == assembled(items, dep, relabel, gs);
    let e = edges_of(items, dep);
    let x = after[i].0;
    let y = after[j].0;
    lemma_assembled_numbers(items, dep, relabel, gs, x);
    lemma_assembled_numbers(items, dep, relabel, gs, y);
    assert(numbers(after)[i] == x && numbers(after)[j] == y);
    let a = choose|a: int| #[trigger] crate::graph::in_group(gs, a, x);
    let b = choose|b: int| #[trigger] crate::graph::in_group(gs, b, y);
    assert(e(x, y));
    assert(crate::graph::in_group(gs, a, x) && crate::graph::in_group(gs, b, y));
    if a < b {
        lemma_orders_apart(items, dep, gs);
        lemma_group_order(items, dep, relabel, gs, a, b, i, j);
    }
}

/// An item gets the number of a group exactly where it depends on itself, if only
/// through others.
pub proof fn law_recursive_items_are_numbered<T>(
    items: Seq<(usize, T)>,
    dep: spec_fn(T, usize) -> bool,
    gs: Seq<Seq<usize>>,
    k: int,
    x: usize,
)
    requires
        orders(items, dep, gs),
        crate::graph::in_group(gs, k, x),
    ensures
        group_label(items, dep, gs[k], k, x) is Some <==> crate::graph::on_cycle(
            edges_of(items, dep),
            x,
        ),
{
    let e = edges_of(items, dep);
    let g = gs[k];
    if is_edge(items, dep, x, x) {
        crate::graph::lemma_reaches_itself(e, x);
        assert(e(x, x) && crate::graph::reaches(e, x, x));
    } else if g.len() > 1 {
        let p = choose|p: int| 0 <= p < g.len() && g[p] == x;
        let q: int = if p == 0 {
            1
        } else {
            0
        };
        let y = g[q];
        assert(y != x);
        assert(g.contains(y));
        assert(crate::graph::in_group(gs, k, x) && crate::graph::in_group(gs, k, y));
        let s = choose|s: Seq<usize>| crate::graph::is_way(e, s, x, y);
        assert(s.len() > 1);
        assert(crate::graph::joined(e, s, 0));
        let z = s[1];
        let t = s.subrange(1, s.len() as int);
        assert forall|i: int| 0 <= i < t.len() - 1 implies #[trigger] crate::graph::joined(
            e,
            t,
            i,
        ) by {
            assert(crate::graph::joined(e, s, i + 1));
        }
        assert(crate::graph::is_way(e, t, z, y));
        crate::graph::lemma_reaches_on(e, z, y, x);
        assert(e(x, z) && crate::graph::reaches(e, z, x));
    }
    if crate::graph::on_cycle(e, x) {
        let z = choose|z: usize| e(x, z) && #[trigger] crate::graph::reaches(e, z, x);
        if z != x {
            crate::graph::lemma_reaches_next(e, x, z);
            assert(is_edge(items, dep, x, z));
            let m = choose|m: int|
                0 <= m < items.len() && (#[trigger] items[m]).0 == z && dep(items[m].1, x);
            assert(numbers(items)[m] == z);
            assert(numbers(items).contains(z));
            let b = choose|b: int| #[trigger] crate::graph::in_group(gs, b, z);
            assert(crate::graph::in_group(gs, k, x) && crate::graph::in_group(gs, b, z));
            assert(b == k);
            let p = choose|p: int| 0 <= p < g.len() && g[p] == x;
            let q = choose|q: int| 0 <= q < g.len() && g[q] == z;
            assert(p != q);
        }
    }
}

/// Whether each of two items depends on the other, if only through others.
pub open spec fn depend_on_each_other<T>(
    items: Seq<(usize, T)>,
    dep: spec_fn(T, usize) -> bool,
    x: usize,
    y: usize,
) -> bool {
    crate::graph::reaches(edges_of(items, dep), x, y) && crate::graph::reaches(
        edges_of(items, dep),
        y,
        x,
    )
}

/// Items that depend on each other stand together: so does every item between them.
pub proof fn law_mutual_items_stand_together<T>(
    items: Seq<(usize, T)>,
    dep: spec_fn(T, usize) -> bool,
    relabel: spec_fn(T, Option<usize>) -> T,
    after: Seq<(usize, T)>,
    i: int,
    k: int,
    j: int,
)
    requires
        is_ordered(items, dep, relabel, after),
        0 <= i < k < j < after.len(),
        depend_on_each_other(items, dep, after[i].0, after[j].0),
    ensures
        depend_on_each_other(items, dep, after[i].0, after[k].0),
{
    let gs = choose|gs: Seq<Seq<usize>>| #[trigger]
        orders(items, dep, gs) && after == assembled(items, dep, relabel, gs);
    let a = lemma_assembled_at(items, dep, relabel, gs, i);
    let b = lemma_assembled_at(items, dep, relabel, gs, k);
    let c = lemma_assembled_at(items, dep, relabel, gs, j);
    lemma_orders_apart(items, dep, gs);
    assert(crate::graph::in_group(gs, a, after[i].0) && crate::graph::in_group(
        gs,
        c,
        after[j].0,
    ));
    assert(a == c);
    if b < a {
        lemma_group_order(items, dep, relabel, gs, b, a, k, i);
    } else if a < b {
        lemma_group_order(items, dep, relabel, gs, a, b, j, k);
    }
    assert(crate::graph::in_group(gs, a, after[i].0) && crate::graph::in_group(
        gs,
        b,
        after[k].0,
    ));
}

/// The numbers of groups that two items get.
proof fn lemma_labels<T>(
    items: Seq<(usize, T)>,
    dep: spec_fn(T, usize) -> bool,
    relabel: spec_fn(T, Option<usize>) -> T,
    after: Seq<(usize, T)>,
    i: int,
    j: int,
) -> (r: (Option<usize>, Option<usize>))
    requires
        is_ordered(items, dep, relabel, after),
        numbers(items).no_duplicates(),
        items.len() <= usize::MAX,
        0 <= i < after.len(),
        0 <= j < after.len(),
    ensures
        after[i].1 == relabel(crate::program::lookup(items, after[i].0)->0, r.0),
        after[j].1 == relabel(crate::program::lookup(items, after[j].0)->0, r.1),
        r.0 is Some <==> crate::graph::on_cycle(edges_of(items, dep), after[i].0),
        i != j ==> (r.0 is Some && r.0 == r.1 <==> depend_on_each_other(
            items,
            dep,
            after[i].0,
            after[j].0,
        )),
{
    let gs = choose|gs: Seq<Seq<usize>>| #[trigger]
        orders(items, dep, gs) && after == assembled(items, dep, relabel, gs);
    let (x, y) = (after[i].0, after[j].0);
    let a = lemma_assembled_at(items, dep, relabel, gs, i);
    let b = lemma_assembled_at(items, dep, relabel, gs, j);
    lemma_orders_apart(items, dep, gs);
    lemma_assembled_apart(items, dep, relabel, gs);
    law_ordering_keeps_items(items, dep, relabel, after);
    law_recursive_items_are_numbered(items, dep, gs, a, x);
    assert(crate::graph::in_group(gs, a, x) && crate::graph::in_group(gs, b, y));
    if i != j {
        assert(numbers(after)[i] == x && numbers(after)[j] == y);
        assert(x != y);
        if a == b {
            let g = gs[a];
            let m = choose|m: int| 0 <= m < g.len() && g[m] == x;
            let n = choose|n: int| 0 <= n < g.len() && g[n] == y;
            assert(m != n);
            assert(g.len() > 1);
        }
    }
    (group_label(items, dep, gs[a], a, x), group_label(items, dep, gs[b], b, y))
}

/// A function gets the number of a group exactly where it calls itself, if only through
/// others; two have the same number exactly where each calls the other, if only through
/// others.
pub proof fn law_functions_share_a_group_number(
    items: Seq<(usize, Func)>,
    after: Seq<(usize, Func)>,
    i: int,
    j: int,
)
    requires
        is_ordered(items, function_dep(), function_label(), after),
        numbers(items).no_duplicates(),
        items.len() <= usize::MAX,
        0 <= i < after.len(),
        0 <= j < after.len(),
    ensures
        after[i].1.mutual_group_id is Some <==> crate::graph::on_cycle(
            edges_of(items, function_dep()),
            after[i].0,
        ),
        i != j ==> (after[i].1.mutual_group_id is Some && after[i].1.mutual_group_id
            == after[j].1.mutual_group_id <==> depend_on_each_other(
            items,
            function_dep(),
            after[i].0,
            after[j].0,
        )),
        after[i].1 == (Func {
            mutual_group_id: after[i].1.mutual_group_id,
            ..crate::program::lookup(items, after[i].0)->0
        }),
{
    let _ = lemma_labels(items, function_dep(), function_label(), after, i, j);
}

/// A structure gets the number of a group exactly where it mentions itself, if only
/// through others; two have the same number exactly where each mentions the other, if
/// only through others.
pub proof fn law_structures_share_a_group_number(
    items: Seq<(usize, StructOf)>,
    after: Seq<(usize, StructOf)>,
    i: int,
    j: int,
)
    requires
        is_ordered(items, struct_dep(), struct_label(), after),
        numbers(items).no_duplicates(),
        items.len() <= usize::MAX,
        0 <= i < after.len(),
        0 <= j < after.len(),
    ensures
        after[i].1.mutual_group_id is Some <==> crate::graph::on_cycle(
            edges_of(items, struct_dep()),
            after[i].0,
        ),
        i != j ==> (after[i].1.mutual_group_id is Some && after[i].1.mutual_group_id
            == after[j].1.mutual_group_id <==> depend_on_each_other(
            items,
            struct_dep(),
            after[i].0,
            after[j].0,
        )),
        after[i].1 == (StructOf {
            mutual_group_id: after[i].1.mutual_group_id,
            ..crate::program::lookup(items, after[i].0)->0
        }),
{
    let _ = lemma_labels(items, struct_dep(), struct_label(), after, i, j);
}

} // verus!
