//! Directed graphs: what can be reached from where, the groups of nodes that reach
//! each other, and orders that follow the edges.

use vstd::prelude::*;

verus! {

/// Whether an edge leads from the `i`th node of a list to the next.
pub open spec fn joined(e: spec_fn(usize, usize) -> bool, s: Seq<usize>, i: int) -> bool {
    e(s[i], s[i + 1])
}

/// Whether edges lead from each node of a list to the next.
pub open spec fn is_path(e: spec_fn(usize, usize) -> bool, s: Seq<usize>) -> bool {
    s.len() > 0 && forall|i: int| 0 <= i < s.len() - 1 ==> #[trigger] joined(e, s, i)
}

/// Whether edges lead along the list from one node to the other.
pub open spec fn is_way(e: spec_fn(usize, usize) -> bool, s: Seq<usize>, x: usize, y: usize) -> bool {
    is_path(e, s) && s[0] == x && s.last() == y
}

/// Whether one node can be reached from the other; each reaches itself.
pub open spec fn reaches(e: spec_fn(usize, usize) -> bool, x: usize, y: usize) -> bool {
    exists|s: Seq<usize>| is_way(e, s, x, y)
}

/// Whether an edge leads from the node to one that reaches it.
pub open spec fn on_cycle(e: spec_fn(usize, usize) -> bool, x: usize) -> bool {
    exists|z: usize| e(x, z) && #[trigger] reaches(e, z, x)
}

/// A node reaches itself.
pub proof fn lemma_reaches_itself(e: spec_fn(usize, usize) -> bool, x: usize)
    ensures
        reaches(e, x, x),
{
    assert(is_way(e, seq![x], x, x));
}

/// A node reaches where an edge leads.
pub proof fn lemma_reaches_next(e: spec_fn(usize, usize) -> bool, x: usize, y: usize)
    requires
        e(x, y),
    ensures
        reaches(e, x, y),
{
    let s = seq![x, y];
    assert(joined(e, s, 0));
    assert(is_way(e, s, x, y));
}

/// A node reaches what is reached from where it reaches.
pub proof fn lemma_reaches_on(e: spec_fn(usize, usize) -> bool, x: usize, y: usize, z: usize)
    requires
        reaches(e, x, y),
        reaches(e, y, z),
    ensures
        reaches(e, x, z),
{
    let a = choose|s: Seq<usize>| is_way(e, s, x, y);
    let b = choose|s: Seq<usize>| is_way(e, s, y, z);
    let s = a + b.subrange(1, b.len() as int);
    assert forall|i: int| 0 <= i < s.len() - 1 implies #[trigger] joined(e, s, i) by {
        if i < a.len() - 1 {
            assert(joined(e, a, i));
        } else if i == a.len() - 1 {
            assert(joined(e, b, 0));
        } else {
            assert(joined(e, b, i - (a.len() - 1)));
        }
    }
    if b.len() == 1 {
        assert(s =~= a);
    }
    assert(is_way(e, s, x, z));
}

/// The edges of a list.
pub open spec fn edge_set(edges: Seq<(usize, usize)>) -> spec_fn(usize, usize) -> bool {
    |x: usize, y: usize| edges.contains((x, y))
}

/// What each of the lists holds.
pub open spec fn list_views(s: Seq<Vec<usize>>) -> Seq<Seq<usize>> {
    Seq::new(s.len(), |i: int| s[i]@)
}

/// Whether the first node stands before the second in a list.
pub open spec fn stands_before(s: Seq<usize>, x: usize, y: usize) -> bool {
    exists|i: int, j: int| 0 <= i < j < s.len() && #[trigger] s[i] == x && #[trigger] s[j] == y
}

/// Whether the nodes of the group stand in the order of a list.
pub open spec fn keeps_order(nodes: Seq<usize>, g: Seq<usize>) -> bool {
    forall|i: int, j: int|
        0 <= i < j < g.len() ==> stands_before(nodes, #[trigger] g[i], #[trigger] g[j])
}

/// Whether the node is in the `a`th group.
pub open spec fn in_group(gs: Seq<Seq<usize>>, a: int, x: usize) -> bool {
    0 <= a < gs.len() && gs[a].contains(x)
}

/// Whether the groups are those of the nodes that reach each other: each node is in
/// one group, two nodes are in the same group exactly where each reaches the other,
/// and each group lists its nodes once, in the order of the nodes.
pub open spec fn is_grouping(
    nodes: Seq<usize>,
    e: spec_fn(usize, usize) -> bool,
    gs: Seq<Seq<usize>>,
) -> bool {
    &&& forall|a: int| 0 <= a < gs.len() ==> (#[trigger] gs[a]).len() > 0 && gs[a].no_duplicates()
        && keeps_order(nodes, gs[a])
    &&& forall|x: usize| #[trigger]
        nodes.contains(x) <==> exists|a: int| #[trigger] in_group(gs, a, x)
    &&& forall|a: int, b: int, x: usize, y: usize|
        #[trigger] in_group(gs, a, x) && #[trigger] in_group(gs, b, y) ==> (a == b <==> reaches(
            e,
            x,
            y,
        ) && reaches(e, y, x))
}

/// Whether an edge leads from a node of the first group to one of the second.
pub open spec fn are_linked(
    e: spec_fn(usize, usize) -> bool,
    gs: Seq<Seq<usize>>,
    a: int,
    b: int,
) -> bool {
    exists|x: usize, y: usize| #[trigger]
        in_group(gs, a, x) && #[trigger] in_group(gs, b, y) && e(x, y)
}

/// The strongly connected components of a graph, and the edges between them.
pub uninterp spec fn condensed(nodes: Seq<usize>, edges: Seq<(usize, usize)>) -> (
    Seq<Seq<usize>>,
    Seq<(usize, usize)>,
);

/// `petgraph::algo::condensation`, with self-loops and parallel edges left out: the
/// strongly connected components, and the edges between them. The nodes and edges
/// are put into a `DiGraphMap`, which keeps them in the order in which they come, and
/// taken out of the condensed graph again. The order of the components follows from
/// that of the nodes and the edges, and is not stated further.
#[verifier::external_body]
pub(crate) fn condense(nodes: &Vec<usize>, edges: &Vec<(usize, usize)>) -> (r: (
    Vec<Vec<usize>>,
    Vec<(usize, usize)>,
))
    requires
        nodes@.no_duplicates(),
        nodes@.len() < u32::MAX,
        edges@.len() < u32::MAX,
        forall|i: int|
            0 <= i < edges@.len() ==> nodes@.contains((#[trigger] edges@[i]).0) && nodes@.contains(
                edges@[i].1,
            ),
    ensures
        (list_views(r.0@), r.1@) == condensed(nodes@, edges@),
        is_grouping(nodes@, edge_set(edges@), list_views(r.0@)),
        r.0@.len() <= nodes@.len(),
        r.1@.len() <= edges@.len(),
        forall|a: usize, b: usize| #[trigger]
            r.1@.contains((a, b)) <==> a != b && are_linked(
                edge_set(edges@),
                list_views(r.0@),
                a as int,
                b as int,
            ),
{
    let mut graph: petgraph::prelude::DiGraphMap<usize, ()> =
        petgraph::prelude::DiGraphMap::with_capacity(nodes.len(), edges.len());
    for n in nodes {
        graph.add_node(*n);
    }
    for (x, y) in edges {
        graph.add_edge(*x, *y, ());
    }
    let (groups, links) = petgraph::algo::condensation(
        graph.into_graph::<u32>(),
        true,
    ).into_nodes_edges();
    let links = links.iter().map(|l| (l.source().index(), l.target().index())).collect();
    (groups.into_iter().map(|g| g.weight).collect(), links)
}

/// The order in which the nodes of a graph are sorted along its edges, if any.
pub uninterp spec fn sorted_nodes(n: usize, links: Seq<(usize, usize)>) -> Option<Seq<usize>>;

/// `petgraph::algo::toposort`: an order of the nodes in which each stands before
/// those that its edges lead to; none where there is a cycle. The graph has nodes
/// with the numbers below `n` and the given edges, and the order follows from them;
/// which of those that are possible it is, is not stated further.
#[verifier::external_body]
pub(crate) fn sort_nodes(n: usize, links: &Vec<(usize, usize)>) -> (r: Option<Vec<usize>>)
    requires
        n < u32::MAX,
        links@.len() < u32::MAX,
        forall|i: int|
            0 <= i < links@.len() ==> (#[trigger] links@[i]).0 < n && links@[i].1 < n,
    ensures
        sorted_nodes(n, links@) == match r {
            Some(order) => Some(order@),
            None => None,
        },
        match r {
            Some(order) => order@.len() == n && order@.no_duplicates() && (forall|i: int|
                0 <= i < n ==> #[trigger] order@[i] < n) && (forall|a: usize|
                a < n ==> #[trigger] order@.contains(a)) && (forall|i: int|
                0 <= i < links@.len() ==> stands_before(
                    order@,
                    (#[trigger] links@[i]).0,
                    links@[i].1,
                )),
            None => exists|x: usize| #[trigger] on_cycle(edge_set(links@), x),
        },
{
    let mut graph = petgraph::graph::DiGraph::<(), (), u32>::default();
    for _ in 0..n {
        graph.add_node(());
    }
    for (a, b) in links {
        let from = petgraph::graph::NodeIndex::new(*a);
        graph.add_edge(from, petgraph::graph::NodeIndex::new(*b), ());
    }
    let order = petgraph::algo::toposort(&graph, None).ok()?;
    Some(order.into_iter().map(|i| i.index()).collect())
}

/// What the groups reach, their nodes reach.
proof fn lemma_links_reach(
    nodes: Seq<usize>,
    e: spec_fn(usize, usize) -> bool,
    gs: Seq<Seq<usize>>,
    l: spec_fn(usize, usize) -> bool,
    s: Seq<usize>,
    x: usize,
    y: usize,
)
    requires
        is_grouping(nodes, e, gs),
        forall|a: usize, b: usize| #[trigger] l(a, b) ==> are_linked(e, gs, a as int, b as int),
        is_path(l, s),
        in_group(gs, s[0] as int, x),
        in_group(gs, s.last() as int, y),
    ensures
        reaches(e, x, y),
    decreases s.len(),
{
    if s.len() == 1 {
        assert(in_group(gs, s[0] as int, x) && in_group(gs, s[0] as int, y));
    } else {
        let front = s.drop_last();
        assert(is_path(l, front)) by {
            assert forall|i: int| 0 <= i < front.len() - 1 implies #[trigger] joined(
                l,
                front,
                i,
            ) by {
                assert(joined(l, s, i));
            }
        }
        let k = s.len() - 2;
        assert(joined(l, s, k));
        let (u, v) = choose|u: usize, v: usize| #[trigger]
            in_group(gs, s[k] as int, u) && #[trigger] in_group(gs, s[k + 1] as int, v) && e(u, v);
        lemma_links_reach(nodes, e, gs, l, front, x, u);
        lemma_reaches_next(e, u, v);
        lemma_reaches_on(e, x, u, v);
        assert(in_group(gs, s.last() as int, v) && in_group(gs, s.last() as int, y));
        lemma_reaches_on(e, x, v, y);
    }
}

/// No edges lead from a group back to it through another.
proof fn lemma_links_acyclic(
    nodes: Seq<usize>,
    e: spec_fn(usize, usize) -> bool,
    gs: Seq<Seq<usize>>,
    l: spec_fn(usize, usize) -> bool,
    a: usize,
)
    requires
        is_grouping(nodes, e, gs),
        forall|a: usize, b: usize| #[trigger]
            l(a, b) ==> a != b && are_linked(e, gs, a as int, b as int),
    ensures
        !on_cycle(l, a),
{
    if on_cycle(l, a) {
        let b = choose|b: usize| l(a, b) && #[trigger] reaches(l, b, a);
        let s = choose|s: Seq<usize>| is_way(l, s, b, a);
        let (x, y) = choose|x: usize, y: usize| #[trigger]
            in_group(gs, a as int, x) && #[trigger] in_group(gs, b as int, y) && e(x, y);
        lemma_links_reach(nodes, e, gs, l, s, y, x);
        lemma_reaches_next(e, x, y);
        assert(in_group(gs, a as int, x) && in_group(gs, b as int, y));
    }
}

/// Whether edges lead only to the same group or to later ones.
pub open spec fn follows_edges(e: spec_fn(usize, usize) -> bool, gs: Seq<Seq<usize>>) -> bool {
    forall|a: int, b: int, x: usize, y: usize|
        #[trigger] in_group(gs, a, x) && #[trigger] in_group(gs, b, y) && e(x, y) ==> a <= b
}

/// The groups in the order of the list.
pub open spec fn taken<T>(gs: Seq<T>, order: Seq<usize>) -> Seq<T> {
    Seq::new(order.len(), |i: int| gs[order[i] as int])
}

/// The groups in another order are still those of the nodes.
proof fn lemma_taken_grouping(
    nodes: Seq<usize>,
    e: spec_fn(usize, usize) -> bool,
    gs: Seq<Seq<usize>>,
    order: Seq<usize>,
)
    requires
        is_grouping(nodes, e, gs),
        order.len() == gs.len(),
        order.no_duplicates(),
        forall|i: int| 0 <= i < order.len() ==> #[trigger] order[i] < gs.len(),
        forall|a: usize| a < gs.len() ==> #[trigger] order.contains(a),
        gs.len() <= usize::MAX,
    ensures
        is_grouping(nodes, e, taken(gs, order)),
{
    let hs = taken(gs, order);
    assert forall|x: usize| #[trigger] nodes.contains(x) <==> exists|a: int| #[trigger]
        in_group(hs, a, x) by {
        if nodes.contains(x) {
            let a = choose|a: int| #[trigger] in_group(gs, a, x);
            assert(order.contains(a as usize));
            let i = choose|i: int| 0 <= i < order.len() && order[i] == a as usize;
            assert(in_group(hs, i, x));
        }
        if exists|a: int| #[trigger] in_group(hs, a, x) {
            let i = choose|i: int| #[trigger] in_group(hs, i, x);
            assert(in_group(gs, order[i] as int, x));
        }
    }
    assert forall|a: int, b: int, x: usize, y: usize| #[trigger]
        in_group(hs, a, x) && #[trigger] in_group(hs, b, y) implies (a == b <==> reaches(e, x, y)
        && reaches(e, y, x)) by {
        assert(in_group(gs, order[a] as int, x) && in_group(gs, order[b] as int, y));
        if a != b {
            assert(order[a] != order[b]);
        }
    }
    assert forall|a: int| 0 <= a < hs.len() implies (#[trigger] hs[a]).len() > 0
        && hs[a].no_duplicates() && keeps_order(nodes, hs[a]) by {
        assert(hs[a] == gs[order[a] as int]);
    }
}

/// The positions of two different elements of a list without duplicates.
proof fn lemma_before(s: Seq<usize>, i: int, j: int)
    requires
        0 <= i < s.len(),
        0 <= j < s.len(),
        s.no_duplicates(),
        stands_before(s, s[i], s[j]),
    ensures
        i < j,
{
    let (p, q) = choose|p: int, q: int|
        0 <= p < q < s.len() && #[trigger] s[p] == s[i] && #[trigger] s[q] == s[j];
    assert(p == i && q == j);
}

/// The groups of nodes that reach each other, in the order in which they are sorted.
pub open spec fn groups_in_order(nodes: Seq<usize>, edges: Seq<(usize, usize)>) -> Seq<
    Seq<usize>,
> {
    let (gs, links) = condensed(nodes, edges);
    match sorted_nodes(gs.len() as usize, links) {
        Some(order) => taken(gs, order),
        None => Seq::empty(),
    }
}

/// The groups of nodes that reach each other, in an order that follows the edges.
pub fn sorted_groups(nodes: &Vec<usize>, edges: &Vec<(usize, usize)>) -> (r: Vec<Vec<usize>>)
    requires
        nodes@.no_duplicates(),
        nodes@.len() < u32::MAX,
        edges@.len() < u32::MAX,
        forall|i: int|
            0 <= i < edges@.len() ==> nodes@.contains((#[trigger] edges@[i]).0) && nodes@.contains(
                edges@[i].1,
            ),
    ensures
        is_grouping(nodes@, edge_set(edges@), list_views(r@)),
        follows_edges(edge_set(edges@), list_views(r@)),
        list_views(r@) == groups_in_order(nodes@, edges@),
{
    let ghost e = edge_set(edges@);
    let (groups, links) = condense(nodes, edges);
    let ghost gs = list_views(groups@);
    let ghost l = edge_set(links@);
    assert forall|i: int| 0 <= i < links@.len() implies (#[trigger] links@[i]).0 < gs.len()
        && links@[i].1 < gs.len() by {
        assert(links@.contains((links@[i].0, links@[i].1)));
    }
    match sort_nodes(groups.len(), &links) {
        Some(order) => {
            let mut out: Vec<Vec<usize>> = Vec::new();
            let mut i: usize = 0;
            while i < order.len()
                invariant
                    i <= order.len(),
                    gs == list_views(groups@),
                    order@.len() == groups@.len(),
                    forall|j: int| 0 <= j < order@.len() ==> #[trigger] order@[j] < groups@.len(),
                    out@.len() == i,
                    forall|j: int|
                        0 <= j < i ==> (#[trigger] out@[j])@ == gs[order@[j] as int],
                decreases order.len() - i,
            {
                out.push(copy_list(&groups[order[i]]));
                i += 1;
            }
            let ghost hs = list_views(out@);
            proof {
                assert(hs =~= taken(gs, order@));
                lemma_taken_grouping(nodes@, e, gs, order@);
                assert forall|a: int, b: int, x: usize, y: usize| #[trigger]
                    in_group(hs, a, x) && #[trigger] in_group(hs, b, y) && e(x, y) implies a
                    <= b by {
                    let u = order@[a];
                    let v = order@[b];
                    assert(in_group(gs, u as int, x) && in_group(gs, v as int, y));
                    assert(are_linked(e, gs, u as int, v as int));
                    if u != v {
                        assert(links@.contains((u, v)));
                        let k = choose|k: int| 0 <= k < links@.len() && links@[k] == (u, v);
                        assert(stands_before(order@, links@[k].0, links@[k].1));
                        lemma_before(order@, a, b);
                    } else {
                        assert(a == b);
                    }
                }
            }
            out
        },
        None => {
            proof {
                let x = choose|x: usize| #[trigger] on_cycle(l, x);
                assert forall|a: usize, b: usize| #[trigger] l(a, b) implies a != b && are_linked(
                    e,
                    gs,
                    a as int,
                    b as int,
                ) by {
                    assert(links@.contains((a, b)));
                }
                lemma_links_acyclic(nodes@, e, gs, l, x);
            }
            Vec::new()
        },
    }
}

/// A copy of a list.
fn copy_list(v: &Vec<usize>) -> (r: Vec<usize>)
    ensures
        r@ == v@,
{
    let mut out: Vec<usize> = Vec::new();
    let mut i: usize = 0;
    while i < v.len()
        invariant
            i <= v.len(),
            out@ == v@.subrange(0, i as int),
        decreases v.len() - i,
    {
        out.push(v[i]);
        assert(out@ =~= v@.subrange(0, i + 1));
        i += 1;
    }
    assert(v@.subrange(0, i as int) =~= v@);
    out
}

} // verus!
