//! The ghost markers that functions thread: which function threads which.

use crate::ir::{IRNode, Node};
use crate::program::{slot_of, Prog, Program};
use crate::sorting::comes_before;
use crate::types::{FunctionID, Name, Ty, Type};
use vstd::prelude::*;

verus! {

/// A list of markers: pairs of a key type and a value type.
pub type Markers = Seq<(Ty, Ty)>;

/// The name of a marker's structure, and its number.
pub open spec fn marker_key(p: Prog, k: Ty) -> (Name, usize) {
    match k {
        Ty::Struct { struct_id, .. } => (
            if p.has_struct(struct_id) {
                p.structure(struct_id).name
            } else {
                Seq::empty()
            },
            struct_id,
        ),
        _ => (Seq::empty(), 0),
    }
}

/// Whether a key comes before another: by name, then by number.
pub open spec fn key_before(a: (Name, usize), b: (Name, usize)) -> bool {
    crate::sorting::precedes(a.0, b.0) || (a.0 == b.0 && a.1 < b.1)
}

/// A list with one more marker: behind those that do not come after it.
pub open spec fn placed_marker(p: Prog, s: Markers, m: (Ty, Ty)) -> Markers
    decreases s.len(),
{
    if s.len() > 0 && key_before(marker_key(p, m.0), marker_key(p, s.last().0)) {
        placed_marker(p, s.drop_last(), m).push(s.last())
    } else {
        s.push(m)
    }
}

/// The markers in the order of their keys; those with the same key keep theirs.
pub open spec fn sorted_markers(p: Prog, s: Markers) -> Markers
    decreases s.len(),
{
    if s.len() == 0 {
        s
    } else {
        placed_marker(p, sorted_markers(p, s.drop_last()), s.last())
    }
}

/// Placing a marker keeps the others.
proof fn lemma_placed(p: Prog, s: Markers, m: (Ty, Ty))
    ensures
        forall|x: (Ty, Ty)|
            #[trigger] placed_marker(p, s, m).contains(x) <==> s.contains(x) || x == m,
    decreases s.len(),
{
    let r = placed_marker(p, s, m);
    if s.len() > 0 && key_before(marker_key(p, m.0), marker_key(p, s.last().0)) {
        let a = s.drop_last();
        lemma_placed(p, a, m);
        let t = placed_marker(p, a, m);
        assert forall|x: (Ty, Ty)| #[trigger] r.contains(x) <==> s.contains(x) || x == m by {
            lemma_push_contains(t, s.last(), x);
            lemma_push_contains(a, s.last(), x);
            assert(a.push(s.last()) =~= s);
            assert(t.contains(x) <==> a.contains(x) || x == m);
        }
    } else {
        assert forall|x: (Ty, Ty)| #[trigger] r.contains(x) <==> s.contains(x) || x == m by {
            lemma_push_contains(s, m, x);
        }
    }
}

/// What a list with one more item holds.
proof fn lemma_push_contains<T>(s: Seq<T>, m: T, x: T)
    ensures
        s.push(m).contains(x) <==> s.contains(x) || x == m,
{
    let r = s.push(m);
    if s.contains(x) {
        let k = choose|k: int| 0 <= k < s.len() && s[k] == x;
        assert(r[k] == x);
    }
    if x == m {
        assert(r[s.len() as int] == x);
    }
    if r.contains(x) {
        let k = choose|k: int| 0 <= k < r.len() && r[k] == x;
        if k < s.len() {
            assert(s[k] == x);
        }
    }
}

/// Sorting keeps the markers.
proof fn lemma_sorted(p: Prog, s: Markers)
    ensures
        forall|x: (Ty, Ty)| #[trigger] sorted_markers(p, s).contains(x) <==> s.contains(x),
    decreases s.len(),
{
    if s.len() > 0 {
        let a = s.drop_last();
        lemma_sorted(p, a);
        lemma_placed(p, sorted_markers(p, a), s.last());
        assert forall|x: (Ty, Ty)| #[trigger] sorted_markers(p, s).contains(x) <==> s.contains(
            x,
        ) by {
            lemma_push_contains(a, s.last(), x);
            assert(a.push(s.last()) =~= s);
            assert(sorted_markers(p, a).contains(x) <==> a.contains(x));
        }
    }
}

/// The name of a marker's structure, and its number.
pub fn key_of(program: &Program, k: &Type) -> (r: (String, usize))
    ensures
        (r.0@, r.1) == marker_key(program@, k@),
{
    match k {
        Type::Struct { struct_id, .. } => {
            let name = match slot_of(&program.structs, *struct_id) {
                Some(i) => {
                    proof {
                        crate::program::lemma_same_slots(
                            program.structs@,
                            program@.structs,
                            *struct_id,
                        );
                    }
                    program.structs[i].1.name.clone()
                },
                None => {
                    proof {
                        crate::program::lemma_same_slots(
                            program.structs@,
                            program@.structs,
                            *struct_id,
                        );
                    }
                    String::new()
                },
            };
            (name, *struct_id)
        },
        _ => (String::new(), 0),
    }
}

/// A copy of a marker.
pub fn clone_marker(m: &(Type, Type)) -> (r: (Type, Type))
    ensures
        (r.0@, r.1@) == (m.0@, m.1@),
{
    (m.0.clone(), m.1.clone())
}

/// A copy of a list of markers.
pub fn clone_markers(s: &Vec<(Type, Type)>) -> (r: Vec<(Type, Type)>)
    ensures
        crate::program::type_pairs(r@) == crate::program::type_pairs(s@),
{
    let mut out: Vec<(Type, Type)> = Vec::new();
    let mut i: usize = 0;
    while i < s.len()
        invariant
            i <= s.len(),
            out@.len() == i,
            forall|j: int| #![trigger out@[j]]
                0 <= j < i ==> out@[j].0@ == s@[j].0@ && out@[j].1@ == s@[j].1@,
        decreases s.len() - i,
    {
        out.push(clone_marker(&s[i]));
        i += 1;
    }
    assert(crate::program::type_pairs(out@) =~= crate::program::type_pairs(s@));
    out
}

/// Puts a marker into a sorted list.
fn place_marker(program: &Program, s: &mut Vec<(Type, Type)>, m: (Type, Type))
    ensures
        crate::program::type_pairs(final(s)@) == placed_marker(
            program@,
            crate::program::type_pairs(old(s)@),
            (m.0@, m.1@),
        ),
{
    let ghost p = program@;
    let ghost all = crate::program::type_pairs(s@);
    let ghost mm = (m.0@, m.1@);
    let key = key_of(program, &m.0);
    let mut i: usize = s.len();
    assert(all.subrange(0, i as int) =~= all);
    assert(all.subrange(i as int, all.len() as int) =~= Seq::empty());
    assert(placed_marker(p, all, mm) + Seq::empty() =~= placed_marker(p, all, mm));
    while i > 0
        invariant_except_break
            i <= s.len(),
        invariant
            i <= s.len(),
            p == program@,
            all == crate::program::type_pairs(s@),
            (key.0@, key.1) == marker_key(p, mm.0),
            placed_marker(p, all, mm) == placed_marker(p, all.subrange(0, i as int), mm)
                + all.subrange(i as int, all.len() as int),
        ensures
            i == 0 || !key_before(marker_key(p, mm.0), marker_key(p, all[i - 1].0)),
        decreases i,
    {
        let other = key_of(program, &s[i - 1].0);
        let ghost front = all.subrange(0, i as int);
        assert(front.last() == all[i - 1]);
        assert(all[i - 1].0 == s@[i - 1].0@);
        assert(front.drop_last() =~= all.subrange(0, i - 1));
        let before = comes_before(&key.0, &other.0) || (key.0 == other.0 && key.1 < other.1);
        if !before {
            break;
        }
        assert(placed_marker(p, front, mm) == placed_marker(p, all.subrange(0, i - 1), mm).push(
            all[i - 1],
        ));
        assert(placed_marker(p, all.subrange(0, i - 1), mm).push(all[i - 1]) + all.subrange(
            i as int,
            all.len() as int,
        ) =~= placed_marker(p, all.subrange(0, i - 1), mm) + all.subrange(
            i - 1,
            all.len() as int,
        ));
        i -= 1;
    }
    assert(placed_marker(p, all.subrange(0, i as int), mm) == all.subrange(0, i as int).push(mm))
        by {
        if i > 0 {
            assert(all.subrange(0, i as int).last() == all[i - 1]);
        }
    }
    s.insert(i, m);
    assert(crate::program::type_pairs(s@) =~= all.subrange(0, i as int).push(mm) + all.subrange(
        i as int,
        all.len() as int,
    ));
}

/// Sorts a list of markers.
fn sort_markers(program: &Program, s: &Vec<(Type, Type)>) -> (r: Vec<(Type, Type)>)
    ensures
        crate::program::type_pairs(r@) == sorted_markers(
            program@,
            crate::program::type_pairs(s@),
        ),
{
    let ghost p = program@;
    let ghost all = crate::program::type_pairs(s@);
    let mut out: Vec<(Type, Type)> = Vec::new();
    let mut i: usize = 0;
    assert(crate::program::type_pairs(out@) =~= Seq::empty());
    assert(all.subrange(0, 0) =~= Seq::empty());
    while i < s.len()
        invariant
            i <= s.len(),
            p == program@,
            all == crate::program::type_pairs(s@),
            crate::program::type_pairs(out@) == sorted_markers(p, all.subrange(0, i as int)),
        decreases s.len() - i,
    {
        let ghost next = all.subrange(0, i + 1);
        assert(next.drop_last() =~= all.subrange(0, i as int));
        assert(next.last() == all[i as int]);
        place_marker(program, &mut out, clone_marker(&s[i]));
        i += 1;
    }
    assert(all.subrange(0, i as int) =~= all);
    out
}

/// Whether a list holds a marker.
pub fn has_marker(s: &Vec<(Type, Type)>, k: &Type, v: &Type) -> (r: bool)
    ensures
        r == crate::program::type_pairs(s@).contains((k@, v@)),
{
    let ghost all = crate::program::type_pairs(s@);
    let mut i: usize = 0;
    while i < s.len()
        invariant
            i <= s.len(),
            all == crate::program::type_pairs(s@),
            forall|j: int| 0 <= j < i ==> #[trigger] all[j] != (k@, v@),
        decreases s.len() - i,
    {
        assert(all[i as int] == (s@[i as int].0@, s@[i as int].1@));
        if s[i].0.same(k) && s[i].1.same(v) {
            return true;
        }
        i += 1;
    }
    false
}

/// The list with one more marker, unless it is there.
pub open spec fn with_marker(s: Markers, m: (Ty, Ty)) -> Markers {
    if s.contains(m) {
        s
    } else {
        s.push(m)
    }
}

/// The list with more markers, those that are not there.
pub open spec fn with_markers(s: Markers, more: Markers) -> Markers
    decreases more.len(),
{
    if more.len() == 0 {
        s
    } else {
        with_marker(with_markers(s, more.drop_last()), more.last())
    }
}

/// What a list with more markers holds; it is longer only where one is new.
proof fn lemma_with_markers(s: Markers, more: Markers)
    ensures
        forall|x: (Ty, Ty)|
            #[trigger] with_markers(s, more).contains(x) <==> s.contains(x) || more.contains(x),
        with_markers(s, more).len() >= s.len(),
        with_markers(s, more).len() == s.len() ==> with_markers(s, more) == s,
        with_markers(s, more).len() > s.len() ==> exists|x: (Ty, Ty)|
            #[trigger] more.contains(x) && !s.contains(x),
    decreases more.len(),
{
    if more.len() > 0 {
        let a = more.drop_last();
        let m = more.last();
        lemma_with_markers(s, a);
        let t = with_markers(s, a);
        let r = with_markers(s, more);
        assert forall|x: (Ty, Ty)| #[trigger] r.contains(x) <==> s.contains(x) || more.contains(
            x,
        ) by {
            lemma_push_contains(a, m, x);
            assert(a.push(m) =~= more);
            lemma_push_contains(t, m, x);
            assert(t.contains(x) <==> s.contains(x) || a.contains(x));
        }
        if r.len() > s.len() {
            if t.len() > s.len() {
                let x = choose|x: (Ty, Ty)| #[trigger] a.contains(x) && !s.contains(x);
                lemma_push_contains(a, m, x);
                assert(a.push(m) =~= more);
                assert(more.contains(x) && !s.contains(x));
            } else {
                assert(more[more.len() - 1] == m);
                assert(more.contains(m));
                assert(!t.contains(m));
                assert(!s.contains(m));
            }
        }
    }
}

/// Adds the markers to a list that are not there.
fn add_markers(s: &mut Vec<(Type, Type)>, more: &Vec<(Type, Type)>)
    ensures
        crate::program::type_pairs(final(s)@) == with_markers(
            crate::program::type_pairs(old(s)@),
            crate::program::type_pairs(more@),
        ),
{
    let ghost start = crate::program::type_pairs(s@);
    let ghost all = crate::program::type_pairs(more@);
    let mut i: usize = 0;
    assert(all.subrange(0, 0) =~= Seq::empty());
    while i < more.len()
        invariant
            i <= more.len(),
            all == crate::program::type_pairs(more@),
            crate::program::type_pairs(s@) == with_markers(start, all.subrange(0, i as int)),
        decreases more.len() - i,
    {
        let ghost next = all.subrange(0, i + 1);
        assert(next.drop_last() =~= all.subrange(0, i as int));
        assert(next.last() == all[i as int]);
        assert(all[i as int] == (more@[i as int].0@, more@[i as int].1@));
        if !has_marker(s, &more[i].0, &more[i].1) {
            let ghost before = crate::program::type_pairs(s@);
            s.push(clone_marker(&more[i]));
            assert(crate::program::type_pairs(s@) =~= before.push(all[i as int]));
        }
        i += 1;
    }
    assert(all.subrange(0, i as int) =~= all);
}

/// The calls in an expression, the outer before the inner.
pub open spec fn calls_in(n: Node) -> Seq<Node>
    decreases n, n.kids().len() + 1,
{
    (if n is Call {
        seq![n]
    } else {
        Seq::empty()
    }) + calls_from(n, 0)
}

/// The calls in the direct subexpressions from the `k`th on.
pub open spec fn calls_from(n: Node, k: nat) -> Seq<Node>
    decreases n, n.kids().len() - k,
{
    if k >= n.kids().len() {
        Seq::empty()
    } else {
        proof {
            n.lemma_kids_decrease();
            assert(decreases_to!(n => n.kids()[k as int]));
        }
        calls_in(n.kids()[k as int]) + calls_from(n, k + 1)
    }
}

/// A call inside an expression stands in the list of its calls.
pub proof fn lemma_calls_in(n: Node, id: FunctionID)
    requires
        n.calls(id),
    ensures
        exists|i: int|
            0 <= i < calls_in(n).len() && (#[trigger] calls_in(n)[i] matches Node::Call {
                function,
                ..
            } && function == id),
    decreases n,
{
    let q = |m: Node| m.is_call_of(seq![id]);
    assert(n.calls_one_of(seq![id]));
    assert(n.any(q));
    if q(n) {
        assert(calls_in(n)[0] == n);
        let ids = seq![id];
        assert(ids.contains(n->Call_function));
    } else {
        assert(n.any_kid(q));
        n.lemma_kids_decrease();
        let i = choose|i: int| 0 <= i < n.kids().len() && (#[trigger] n.kids()[i]).any(q);
        let kid = n.kids()[i];
        assert(kid.calls(id));
        lemma_calls_in(kid, id);
        let j = choose|j: int|
            0 <= j < calls_in(kid).len() && (#[trigger] calls_in(kid)[j] matches Node::Call {
                function,
                ..
            } && function == id);
        lemma_calls_from(n, 0, i);
        let start = choose|start: int| #[trigger] stands_at(calls_from(n, 0), calls_in(kid), start);
        let own = if n is Call {
            1int
        } else {
            0int
        };
        assert(calls_in(n)[own + start + j] == calls_in(kid)[j]) by {
            assert(calls_from(n, 0)[start + j] == calls_in(kid)[j]);
        }
    }
}

/// Whether a list stands inside another from a position on.
spec fn stands_at(all: Seq<Node>, part: Seq<Node>, start: int) -> bool {
    0 <= start && start + part.len() <= all.len() && forall|j: int|
        0 <= j < part.len() ==> all[start + j] == #[trigger] part[j]
}

/// The calls of a direct subexpression stand among those of all.
proof fn lemma_calls_from(n: Node, k: nat, i: int)
    requires
        k <= i < n.kids().len(),
    ensures
        exists|start: int| #[trigger] stands_at(calls_from(n, k), calls_in(n.kids()[i]), start),
    decreases i - k,
{
    let part = calls_in(n.kids()[i]);
    if k == i {
        assert(stands_at(calls_from(n, k), part, 0));
    } else {
        lemma_calls_from(n, k + 1, i);
        let start = choose|start: int| #[trigger] stands_at(calls_from(n, k + 1), part, start);
        let first = calls_in(n.kids()[k as int]);
        assert forall|j: int| 0 <= j < part.len() implies calls_from(n, k)[first.len() + start + j]
            == #[trigger] part[j] by {
            assert(calls_from(n, k + 1)[start + j] == part[j]);
        }
        assert(stands_at(calls_from(n, k), part, first.len() + start));
    }
}

/// What a list of references holds.
pub open spec fn ref_views(s: Seq<&IRNode>) -> Seq<Node> {
    Seq::new(s.len(), |i: int| s[i]@)
}

/// Adds the calls in an expression to a list.
fn add_calls<'a>(node: &'a IRNode, out: &mut Vec<&'a IRNode>)
    ensures
        ref_views(final(out)@) == ref_views(old(out)@) + calls_in(node@),
    decreases node@,
{
    let ghost start = ref_views(out@);
    match node {
        IRNode::Call { .. } => {
            out.push(node);
        },
        _ => {},
    }
    let ghost own = ref_views(out@);
    assert(own =~= start + if node@ is Call {
        seq![node@]
    } else {
        Seq::empty()
    });
    let ks = node.children();
    let mut i: usize = 0;
    proof {
        node@.lemma_kids_decrease();
    }
    while i < ks.len()
        invariant
            i <= ks.len(),
            ks@.len() == node@.kids().len(),
            forall|j: int| 0 <= j < ks@.len() ==> (#[trigger] ks@[j])@ == node@.kids()[j],
            own + calls_from(node@, 0) =~= ref_views(out@) + calls_from(node@, i as nat),
            forall|j: int| 0 <= j < node@.kids().len() ==> decreases_to!(
                node@ => #[trigger] node@.kids()[j]
            ),
        decreases ks.len() - i,
    {
        assert(ks@[i as int]@ == node@.kids()[i as int]);
        let ghost before = ref_views(out@);
        add_calls(ks[i], out);
        assert(before + (calls_in(node@.kids()[i as int]) + calls_from(node@, i as nat + 1))
            =~= ref_views(out@) + calls_from(node@, i as nat + 1));
        i += 1;
    }
    assert(ref_views(out@) =~= start + calls_in(node@));
}

/// The calls in an expression, the outer before the inner.
pub fn call_nodes(node: &IRNode) -> (r: Vec<&IRNode>)
    ensures
        ref_views(r@) == calls_in(node@),
{
    let mut out: Vec<&IRNode> = Vec::new();
    assert(ref_views(out@) =~= Seq::empty());
    add_calls(node, &mut out);
    assert(ref_views(out@) =~= calls_in(node@));
    out
}

/// The ghost operations: those that read a marker, and those that set it.
#[verifier::ext_equal]
pub struct Ops {
    pub read: Seq<FunctionID>,
    pub set: Seq<FunctionID>,
}

/// The executable [`Ops`].
pub struct GhostOpFids {
    pub read: Vec<FunctionID>,
    pub set: Vec<FunctionID>,
}

impl GhostOpFids {
    /// What the lists hold.
    pub open spec fn view(&self) -> Ops {
        Ops { read: self.read@, set: self.set@ }
    }
}

/// The markers of the list that a series of calls of ghost operations names.
pub open spec fn op_markers(calls: Seq<Node>, ops: Ops, all: Markers) -> Markers
    decreases calls.len(),
{
    if calls.len() == 0 {
        Seq::empty()
    } else {
        let before = op_markers(calls.drop_last(), ops, all);
        match calls.last() {
            Node::Call { function, type_args, .. } => if (ops.read.contains(function)
                || ops.set.contains(function)) && type_args.len() == 2 && all.contains(
                (type_args[0], type_args[1]),
            ) {
                with_marker(before, (type_args[0], type_args[1]))
            } else {
                before
            },
            _ => before,
        }
    }
}

/// The markers that a series of calls of ghost operations names are in the list.
proof fn lemma_op_markers(calls: Seq<Node>, ops: Ops, all: Markers)
    ensures
        forall|x: (Ty, Ty)| #[trigger] op_markers(calls, ops, all).contains(x) ==> all.contains(x),
    decreases calls.len(),
{
    if calls.len() > 0 {
        let before = op_markers(calls.drop_last(), ops, all);
        lemma_op_markers(calls.drop_last(), ops, all);
        assert forall|x: (Ty, Ty)|
            #[trigger] op_markers(calls, ops, all).contains(x) implies all.contains(x) by {
            match calls.last() {
                Node::Call { type_args, .. } => {
                    lemma_push_contains(before, (type_args[0], type_args[1]), x);
                    assert(before.contains(x) ==> all.contains(x));
                },
                _ => {},
            }
        }
    }
}

/// The markers of the list that an expression's ghost operations name.
fn used_markers(node: &IRNode, ops: &GhostOpFids, all: &Vec<(Type, Type)>) -> (r: Vec<
    (Type, Type),
>)
    ensures
        crate::program::type_pairs(r@) == op_markers(
            calls_in(node@),
            ops@,
            crate::program::type_pairs(all@),
        ),
{
    let ghost us = crate::program::type_pairs(all@);
    let calls = call_nodes(node);
    let ghost cs = calls_in(node@);
    let mut out: Vec<(Type, Type)> = Vec::new();
    let mut i: usize = 0;
    assert(crate::program::type_pairs(out@) =~= Seq::empty());
    assert(cs.subrange(0, 0) =~= Seq::empty());
    while i < calls.len()
        invariant
            i <= calls.len(),
            us == crate::program::type_pairs(all@),
            cs == ref_views(calls@),
            crate::program::type_pairs(out@) == op_markers(cs.subrange(0, i as int), ops@, us),
        decreases calls.len() - i,
    {
        let ghost next = cs.subrange(0, i + 1);
        assert(next.drop_last() =~= cs.subrange(0, i as int));
        assert(next.last() == calls@[i as int]@);
        match calls[i] {
            IRNode::Call { function, type_args, .. } => {
                assert(Type::views(type_args@).len() == type_args@.len());
                if (crate::traverse::contains_id(&ops.read, *function)
                    || crate::traverse::contains_id(&ops.set, *function)) && type_args.len() == 2 {
                    assert(Type::views(type_args@)[0] == type_args@[0]@);
                    assert(Type::views(type_args@)[1] == type_args@[1]@);
                    let k = &type_args[0];
                    let v = &type_args[1];
                    if has_marker(all, k, v) && !has_marker(&out, k, v) {
                        let ghost before = crate::program::type_pairs(out@);
                        out.push((k.clone(), v.clone()));
                        assert(crate::program::type_pairs(out@) =~= before.push((k@, v@)));
                    }
                }
            },
            _ => {},
        }
        i += 1;
    }
    assert(cs.subrange(0, i as int) =~= cs);
    out
}

/// What each function threads, in the order of the functions; nothing is recorded
/// of some.
pub type Threaded = Seq<Option<Markers>>;

/// What an executable record holds.
pub open spec fn optional_markers(e: Option<Vec<(Type, Type)>>) -> Option<Markers> {
    match e {
        Some(v) => Some(crate::program::type_pairs(v@)),
        None => None,
    }
}

/// What an executable record of what each function threads holds.
pub open spec fn threaded_views(s: Seq<Option<Vec<(Type, Type)>>>) -> Threaded {
    Seq::new(s.len(), |i: int| optional_markers(s[i]))
}

/// The markers of a record; none where nothing is recorded.
pub open spec fn markers_of(e: Option<Markers>) -> Markers {
    match e {
        Some(s) => s,
        None => Seq::empty(),
    }
}

/// The markers that are recorded for a function.
pub open spec fn threads(p: Prog, g: Threaded, id: FunctionID) -> Markers {
    match crate::program::slot(p.functions, id) {
        Some(i) => markers_of(g[i]),
        None => Seq::empty(),
    }
}

/// The markers of the functions that a series of calls names.
pub open spec fn callee_markers(p: Prog, g: Threaded, calls: Seq<Node>) -> Markers
    decreases calls.len(),
{
    if calls.len() == 0 {
        Seq::empty()
    } else {
        let before = callee_markers(p, g, calls.drop_last());
        match calls.last() {
            Node::Call { function, .. } => with_markers(before, threads(p, g, function)),
            _ => before,
        }
    }
}

/// What a series of calls brings: the markers of each function that is called.
proof fn lemma_callee_markers(p: Prog, g: Threaded, calls: Seq<Node>, x: (Ty, Ty))
    ensures
        callee_markers(p, g, calls).contains(x) <==> exists|i: int|
            0 <= i < calls.len() && (#[trigger] calls[i] matches Node::Call { function, .. }
                && threads(p, g, function).contains(x)),
    decreases calls.len(),
{
    if calls.len() > 0 {
        let a = calls.drop_last();
        lemma_callee_markers(p, g, a, x);
        let before = callee_markers(p, g, a);
        match calls.last() {
            Node::Call { function, .. } => {
                lemma_with_markers(before, threads(p, g, function));
                if before.contains(x) {
                    let i = choose|i: int|
                        0 <= i < a.len() && (#[trigger] a[i] matches Node::Call { function, .. }
                            && threads(p, g, function).contains(x));
                    assert(calls[i] == a[i]);
                }
                if threads(p, g, function).contains(x) {
                    assert(calls[calls.len() - 1] == calls.last());
                }
            },
            _ => {
                if before.contains(x) {
                    let i = choose|i: int|
                        0 <= i < a.len() && (#[trigger] a[i] matches Node::Call { function, .. }
                            && threads(p, g, function).contains(x));
                    assert(calls[i] == a[i]);
                }
            },
        }
        if exists|i: int|
            0 <= i < calls.len() && (#[trigger] calls[i] matches Node::Call { function, .. }
                && threads(p, g, function).contains(x)) {
            let i = choose|i: int|
                0 <= i < calls.len() && (#[trigger] calls[i] matches Node::Call { function, .. }
                    && threads(p, g, function).contains(x));
            if i < a.len() {
                assert(a[i] == calls[i]);
            }
        }
    }
}

/// What a function threads: what was recorded, and what the given list adds.
pub open spec fn grown(p: Prog, e: Option<Markers>, more: Markers) -> Option<Markers> {
    if with_markers(markers_of(e), more).len() == markers_of(e).len() {
        e
    } else {
        Some(sorted_markers(p, with_markers(markers_of(e), more)))
    }
}

/// What the functions thread after the `i`th has taken over what its callees
/// thread.
pub open spec fn taken_over(p: Prog, g: Threaded, i: int) -> Threaded {
    if p.functions[i].1.is_native {
        g
    } else {
        g.update(
            i,
            grown(p, g[i], callee_markers(p, g, calls_in(p.functions[i].1.body))),
        )
    }
}

/// What the functions thread after the first `k` have taken over, one after the
/// other, what their callees thread.
pub open spec fn one_round(p: Prog, g: Threaded, k: nat) -> Threaded
    decreases k,
{
    if k == 0 {
        g
    } else {
        taken_over(p, one_round(p, g, (k - 1) as nat), k - 1)
    }
}

/// How many of the first `k` markers of a list another lacks.
pub open spec fn lacking(all: Markers, e: Markers, k: nat) -> nat
    decreases k,
{
    if k == 0 {
        0
    } else {
        lacking(all, e, (k - 1) as nat) + if e.contains(all[k - 1]) {
            0nat
        } else {
            1nat
        }
    }
}

/// How many markers of a list the first `k` functions lack together.
pub open spec fn missing(all: Markers, g: Threaded, k: nat) -> nat
    decreases k,
{
    if k == 0 {
        0
    } else {
        missing(all, g, (k - 1) as nat) + lacking(all, markers_of(g[k - 1]), all.len())
    }
}

/// What the functions thread after as many rounds as bring something new.
pub open spec fn settled(p: Prog, all: Markers, g: Threaded) -> Threaded
    decreases missing(all, g, g.len()),
{
    let h = one_round(p, g, p.functions.len());
    if h == g || missing(all, h, h.len()) >= missing(all, g, g.len()) {
        h
    } else {
        settled(p, all, h)
    }
}

/// Whether each function threads markers of the list only.
pub open spec fn within(g: Threaded, all: Markers) -> bool {
    forall|i: int, x: (Ty, Ty)|
        0 <= i < g.len() && #[trigger] markers_of(g[i]).contains(x) ==> all.contains(x)
}

/// A larger list lacks no more, and less where it has a marker more.
proof fn lemma_lacking(all: Markers, a: Markers, b: Markers, k: nat, x: (Ty, Ty))
    requires
        k <= all.len(),
        forall|y: (Ty, Ty)| #[trigger] a.contains(y) ==> b.contains(y),
    ensures
        lacking(all, b, k) <= lacking(all, a, k),
        b.contains(x) && !a.contains(x) && all.subrange(0, k as int).contains(x) ==> lacking(
            all,
            b,
            k,
        ) < lacking(all, a, k),
    decreases k,
{
    if k > 0 {
        lemma_lacking(all, a, b, (k - 1) as nat, x);
        assert(a.contains(all[k - 1]) ==> b.contains(all[k - 1]));
        let s = all.subrange(0, k as int);
        if s.contains(x) {
            let j = choose|j: int| 0 <= j < s.len() && s[j] == x;
            if j < k - 1 {
                assert(all.subrange(0, k - 1)[j] == x);
            }
        }
    }
}

/// Where one function lacks less, all together do.
proof fn lemma_missing(all: Markers, g: Threaded, i: int, e: Option<Markers>, k: nat)
    requires
        0 <= i < g.len(),
        k <= g.len(),
        lacking(all, markers_of(e), all.len()) < lacking(all, markers_of(g[i]), all.len()),
    ensures
        i < k ==> missing(all, g.update(i, e), k) < missing(all, g, k),
        i >= k ==> missing(all, g.update(i, e), k) == missing(all, g, k),
    decreases k,
{
    if k > 0 {
        lemma_missing(all, g, i, e, (k - 1) as nat);
    }
}

/// What a function takes over stays within the list, and makes all together lack
/// less, if anything changes.
proof fn lemma_taken_over(p: Prog, all: Markers, g: Threaded, i: int)
    requires
        g.len() == p.functions.len(),
        0 <= i < g.len(),
        within(g, all),
    ensures
        taken_over(p, g, i).len() == g.len(),
        within(taken_over(p, g, i), all),
        taken_over(p, g, i) == g || missing(all, taken_over(p, g, i), g.len()) < missing(
            all,
            g,
            g.len(),
        ),
{
    if !p.functions[i].1.is_native {
        let calls = calls_in(p.functions[i].1.body);
        let more = callee_markers(p, g, calls);
        let e = markers_of(g[i]);
        let s = with_markers(e, more);
        lemma_with_markers(e, more);
        lemma_sorted(p, s);
        let h = taken_over(p, g, i);
        assert forall|x: (Ty, Ty)| #[trigger] more.contains(x) implies all.contains(x) by {
            lemma_callee_markers(p, g, calls, x);
            let j = choose|j: int|
                0 <= j < calls.len() && (#[trigger] calls[j] matches Node::Call { function, .. }
                    && threads(p, g, function).contains(x));
            match calls[j] {
                Node::Call { function, .. } => {
                    match crate::program::slot(p.functions, function) {
                        Some(k) => {
                            assert(crate::program::is_slot(p.functions, function, k));
                            assert(markers_of(g[k]).contains(x));
                        },
                        None => {},
                    }
                },
                _ => {},
            }
        }
        if s.len() != e.len() {
            let f = Some(sorted_markers(p, s));
            assert(h == g.update(i, f));
            assert forall|j: int, x: (Ty, Ty)|
                0 <= j < h.len() && #[trigger] markers_of(h[j]).contains(x) implies all.contains(
                x,
            ) by {
                if j == i {
                    assert(sorted_markers(p, s).contains(x));
                    assert(s.contains(x));
                    if e.contains(x) {
                        assert(markers_of(g[i]).contains(x));
                    } else {
                        assert(more.contains(x));
                    }
                } else {
                    assert(markers_of(g[j]).contains(x));
                }
            }
            let x = choose|x: (Ty, Ty)| #[trigger] more.contains(x) && !e.contains(x);
            assert(all.subrange(0, all.len() as int) =~= all);
            assert(s.contains(x));
            assert(sorted_markers(p, s).contains(x));
            assert forall|y: (Ty, Ty)| #[trigger] e.contains(y) implies sorted_markers(
                p,
                s,
            ).contains(y) by {
                assert(s.contains(y));
            }
            lemma_lacking(all, e, sorted_markers(p, s), all.len(), x);
            lemma_missing(all, g, i, f, g.len());
        } else {
            assert(h =~= g);
        }
    }
}

/// The markers of the functions that a function's body calls.
fn called_markers(
    program: &Program,
    g: &Vec<Option<Vec<(Type, Type)>>>,
    node: &IRNode,
) -> (r: Vec<(Type, Type)>)
    requires
        g@.len() == program@.functions.len(),
    ensures
        crate::program::type_pairs(r@) == callee_markers(
            program@,
            threaded_views(g@),
            calls_in(node@),
        ),
{
    let ghost p = program@;
    let ghost gs = threaded_views(g@);
    let calls = call_nodes(node);
    let ghost cs = calls_in(node@);
    let mut out: Vec<(Type, Type)> = Vec::new();
    let mut i: usize = 0;
    assert(crate::program::type_pairs(out@) =~= Seq::empty());
    assert(cs.subrange(0, 0) =~= Seq::empty());
    while i < calls.len()
        invariant
            i <= calls.len(),
            p == program@,
            gs == threaded_views(g@),
            g@.len() == p.functions.len(),
            cs == ref_views(calls@),
            crate::program::type_pairs(out@) == callee_markers(p, gs, cs.subrange(0, i as int)),
        decreases calls.len() - i,
    {
        let ghost next = cs.subrange(0, i + 1);
        assert(next.drop_last() =~= cs.subrange(0, i as int));
        assert(next.last() == calls@[i as int]@);
        match calls[i] {
            IRNode::Call { function, .. } => match program.function_slot(*function) {
                Some(k) => {
                    match &g[k] {
                        Some(ms) => {
                            add_markers(&mut out, ms);
                        },
                        None => {},
                    }
                },
                None => {},
            },
            _ => {},
        }
        i += 1;
    }
    assert(cs.subrange(0, i as int) =~= cs);
    out
}

/// Adds the markers to a record, and sorts it; `None` where nothing is new.
fn grow(program: &Program, e: &Option<Vec<(Type, Type)>>, more: &Vec<(Type, Type)>) -> (r: Option<
    Vec<(Type, Type)>,
>)
    ensures
        ({
            let old_entry = optional_markers(*e);
            let ms = crate::program::type_pairs(more@);
            match r {
                Some(v) => grown(program@, old_entry, ms) == Some(crate::program::type_pairs(v@))
                    && with_markers(markers_of(old_entry), ms).len() != markers_of(
                    old_entry,
                ).len(),
                None => with_markers(markers_of(old_entry), ms).len() == markers_of(
                    old_entry,
                ).len(),
            }
        }),
{
    let mut own: Vec<(Type, Type)> = match e {
        Some(v) => clone_markers(v),
        None => Vec::new(),
    };
    let ghost old_entry = optional_markers(*e);
    assert(crate::program::type_pairs(own@) =~= markers_of(old_entry));
    let n = own.len();
    assert(n == markers_of(old_entry).len());
    add_markers(&mut own, more);
    assert(crate::program::type_pairs(own@).len() == own@.len());
    if own.len() == n {
        None
    } else {
        Some(sort_markers(program, &own))
    }
}

/// Lets each function take over what its callees thread, until nothing changes.
fn settle(
    program: &Program,
    g: Vec<Option<Vec<(Type, Type)>>>,
    Ghost(all): Ghost<Markers>,
) -> (r: Vec<Option<Vec<(Type, Type)>>>)
    requires
        g@.len() == program@.functions.len(),
        within(threaded_views(g@), all),
    ensures
        threaded_views(r@) == settled(program@, all, threaded_views(g@)),
        r@.len() == g@.len(),
{
    let ghost p = program@;
    let ghost goal = settled(p, all, threaded_views(g@));
    let mut cur = g;
    loop
        invariant
            p == program@,
            cur@.len() == p.functions.len(),
            within(threaded_views(cur@), all),
            settled(p, all, threaded_views(cur@)) == goal,
        ensures
            threaded_views(cur@) == goal,
            cur@.len() == p.functions.len(),
        decreases missing(all, threaded_views(cur@), cur@.len()),
    {
        let ghost start = threaded_views(cur@);
        let n = program.functions.len();
        let mut i: usize = 0;
        let mut changed = false;
        while i < n
            invariant
                i <= n,
                n == program.functions@.len(),
                n == p.functions.len(),
                p == program@,
                cur@.len() == n,
                start.len() == n,
                within(threaded_views(cur@), all),
                threaded_views(cur@) == one_round(p, start, i as nat),
                !changed ==> threaded_views(cur@) == start,
                changed ==> missing(all, threaded_views(cur@), n as nat) < missing(
                    all,
                    start,
                    n as nat,
                ),
            decreases n - i,
        {
            let ghost before = threaded_views(cur@);
            proof {
                lemma_taken_over(p, all, before, i as int);
            }
            let func = &program.functions[i].1;
            assert(p.functions[i as int].1 == func@);
            if !func.is_native {
                let more = called_markers(program, &cur, &func.body);
                let e = grow(program, &cur[i], &more);
                assert(before[i as int] == optional_markers(cur@[i as int]));
                match e {
                    Some(v) => {
                        cur[i] = Some(v);
                        changed = true;
                        assert(threaded_views(cur@) =~= taken_over(p, before, i as int));
                        proof {
                            let ee = markers_of(before[i as int]);
                            let ms = crate::program::type_pairs(more@);
                            lemma_with_markers(ee, ms);
                            lemma_sorted(p, with_markers(ee, ms));
                            let x = choose|x: (Ty, Ty)| #[trigger] ms.contains(x) && !ee.contains(x);
                            assert(with_markers(ee, ms).contains(x));
                            assert(crate::program::type_pairs(v@).contains(x));
                            assert(threaded_views(cur@)[i as int] != before[i as int]);
                        }
                    },
                    None => {
                        assert(before =~= taken_over(p, before, i as int));
                    },
                }
            }
            i += 1;
        }
        if !changed {
            break;
        }
    }
    cur
}

/// What the functions thread by themselves: a function of the seed its own markers,
/// and another than a native one those that its ghost operations name.
pub open spec fn direct(
    p: Prog,
    seed: Seq<(FunctionID, Markers)>,
    ops: Ops,
    all: Markers,
) -> Threaded {
    Seq::new(p.functions.len(), |i: int| direct_of(p, seed, ops, all, i))
}

/// What the `i`th function threads by itself.
pub open spec fn direct_of(
    p: Prog,
    seed: Seq<(FunctionID, Markers)>,
    ops: Ops,
    all: Markers,
    i: int,
) -> Option<Markers> {
    let own = match crate::program::lookup(seed, p.functions[i].0) {
        Some(ms) => Some(sorted_markers(p, ms)),
        None => None,
    };
    if p.functions[i].1.is_native {
        own
    } else {
        grown(p, own, op_markers(calls_in(p.functions[i].1.body), ops, all))
    }
}

/// The markers of the seed, each once.
pub open spec fn universe(p: Prog, seed: Seq<(FunctionID, Markers)>) -> Markers
    decreases seed.len(),
{
    if seed.len() == 0 {
        Seq::empty()
    } else {
        with_markers(
            universe(p, seed.drop_last()),
            sorted_markers(p, seed.last().1),
        )
    }
}

/// The markers of each entry are among those of the seed.
proof fn lemma_universe(p: Prog, seed: Seq<(FunctionID, Markers)>, i: int, x: (Ty, Ty))
    requires
        0 <= i < seed.len(),
        seed[i].1.contains(x),
    ensures
        universe(p, seed).contains(x),
    decreases seed.len(),
{
    let a = seed.drop_last();
    lemma_with_markers(universe(p, a), sorted_markers(p, seed.last().1));
    lemma_sorted(p, seed.last().1);
    if i < a.len() {
        assert(a[i] == seed[i]);
        lemma_universe(p, a, i, x);
        assert(universe(p, a).contains(x));
    } else {
        assert(sorted_markers(p, seed.last().1).contains(x));
    }
}

/// What the functions thread by themselves are markers of the seed.
proof fn lemma_direct_within(
    p: Prog,
    seed: Seq<(FunctionID, Markers)>,
    ops: Ops,
)
    ensures
        within(direct(p, seed, ops, universe(p, seed)), universe(p, seed)),
{
    let all = universe(p, seed);
    let g = direct(p, seed, ops, all);
    assert forall|i: int, x: (Ty, Ty)|
        0 <= i < g.len() && #[trigger] markers_of(g[i]).contains(x) implies all.contains(x) by {
        let found = crate::program::lookup(seed, p.functions[i].0);
        let own = match found {
            Some(ms) => Some(sorted_markers(p, ms)),
            None => None,
        };
        let more = op_markers(calls_in(p.functions[i].1.body), ops, all);
        lemma_op_markers(calls_in(p.functions[i].1.body), ops, all);
        lemma_with_markers(markers_of(own), more);
        lemma_sorted(p, with_markers(markers_of(own), more));
        assert(markers_of(own).contains(x) || more.contains(x)) by {
            if markers_of(g[i]) != markers_of(own) {
                assert(sorted_markers(p, with_markers(markers_of(own), more)).contains(x));
                assert(with_markers(markers_of(own), more).contains(x));
            }
        }
        if markers_of(own).contains(x) && !more.contains(x) {
            match crate::program::slot(seed, p.functions[i].0) {
                Some(k) => {
                    assert(crate::program::is_slot(seed, p.functions[i].0, k));
                    lemma_sorted(p, seed[k].1);
                    lemma_universe(p, seed, k, x);
                },
                None => {},
            }
        }
    }
}

/// What the functions thread: what they thread by themselves, and what their
/// callees do.
pub open spec fn threaded_by(p: Prog, seed: Seq<(FunctionID, Markers)>, ops: Ops) -> Threaded {
    let all = universe(p, seed);
    settled(p, all, direct(p, seed, ops, all))
}

/// Works out what the functions thread.
pub fn find_threaded(
    program: &Program,
    seed: &Vec<(FunctionID, Vec<(Type, Type)>)>,
    ops: &GhostOpFids,
) -> (r: Vec<Option<Vec<(Type, Type)>>>)
    ensures
        r@.len() == program@.functions.len(),
        threaded_views(r@) == threaded_by(program@, crate::program::marker_views(seed@), ops@),
{
    let ghost p = program@;
    let ghost ss = crate::program::marker_views(seed@);
    let mut all: Vec<(Type, Type)> = Vec::new();
    let mut i: usize = 0;
    assert(crate::program::type_pairs(all@) =~= Seq::empty());
    assert(ss.subrange(0, 0) =~= Seq::empty());
    while i < seed.len()
        invariant
            i <= seed.len(),
            p == program@,
            ss == crate::program::marker_views(seed@),
            crate::program::type_pairs(all@) == universe(p, ss.subrange(0, i as int)),
        decreases seed.len() - i,
    {
        let ghost next = ss.subrange(0, i + 1);
        assert(next.drop_last() =~= ss.subrange(0, i as int));
        assert(next.last() == (seed@[i as int].0, crate::program::type_pairs(seed@[i as int].1@)));
        let own = sort_markers(program, &seed[i].1);
        add_markers(&mut all, &own);
        i += 1;
    }
    assert(ss.subrange(0, i as int) =~= ss);
    let ghost us = crate::program::type_pairs(all@);
    let mut g: Vec<Option<Vec<(Type, Type)>>> = Vec::new();
    let n = program.functions.len();
    let mut k: usize = 0;
    while k < n
        invariant
            k <= n,
            n == program.functions@.len(),
            p == program@,
            n == p.functions.len(),
            ss == crate::program::marker_views(seed@),
            us == crate::program::type_pairs(all@),
            g@.len() == k,
            forall|j: int|
                0 <= j < k ==> #[trigger] threaded_views(g@)[j] == direct_of(p, ss, ops@, us, j),
        decreases n - k,
    {
        let func = &program.functions[k].1;
        let id = program.functions[k].0;
        assert(p.functions[k as int] == (id, func@));
        let own = match slot_of(seed, id) {
            Some(j) => Some(sort_markers(program, &seed[j].1)),
            None => None,
        };
        proof {
            crate::program::lemma_same_slots(seed@, ss, id);
        }
        assert(optional_markers(own) == match crate::program::lookup(ss, id) {
            Some(ms) => Some(sorted_markers(p, ms)),
            None => None,
        });
        let mut e = own;
        if !func.is_native {
            let used = used_markers(&func.body, ops, &all);
            match grow(program, &e, &used) {
                Some(v) => {
                    e = Some(v);
                },
                None => {},
            }
        }
        let ghost before = g@;
        g.push(e);
        assert(threaded_views(g@)[k as int] == direct_of(p, ss, ops@, us, k as int));
        assert forall|j: int| 0 <= j < k + 1 implies #[trigger] threaded_views(g@)[j] == direct_of(
            p,
            ss,
            ops@,
            us,
            j,
        ) by {
            if j < k {
                assert(threaded_views(before)[j] == direct_of(p, ss, ops@, us, j));
                assert(g@[j] == before[j]);
            }
        }
        k += 1;
    }
    assert(threaded_views(g@) =~= direct(p, ss, ops@, us));
    proof {
        lemma_direct_within(p, ss, ops@);
    }
    settle(program, g, Ghost(us))
}

/// A round brings nothing new once the functions have settled, and they thread
/// markers of the list only.
pub proof fn lemma_settled(p: Prog, all: Markers, g: Threaded)
    requires
        g.len() == p.functions.len(),
        within(g, all),
    ensures
        settled(p, all, g).len() == g.len(),
        within(settled(p, all, g), all),
        one_round(p, settled(p, all, g), p.functions.len()) == settled(p, all, g),
    decreases missing(all, g, g.len()),
{
    let h = one_round(p, g, p.functions.len());
    lemma_one_round(p, all, g, p.functions.len());
    if h != g && missing(all, h, h.len()) < missing(all, g, g.len()) {
        lemma_settled(p, all, h);
    }
}

/// A round keeps within the list, and changes nothing or makes all together lack
/// less.
proof fn lemma_one_round(p: Prog, all: Markers, g: Threaded, k: nat)
    requires
        g.len() == p.functions.len(),
        k <= g.len(),
        within(g, all),
    ensures
        one_round(p, g, k).len() == g.len(),
        within(one_round(p, g, k), all),
        one_round(p, g, k) == g || missing(all, one_round(p, g, k), g.len()) < missing(
            all,
            g,
            g.len(),
        ),
    decreases k,
{
    if k > 0 {
        lemma_one_round(p, all, g, (k - 1) as nat);
        lemma_taken_over(p, all, one_round(p, g, (k - 1) as nat), k - 1);
    }
}

/// If a round changes nothing, neither does any step of it.
proof fn lemma_steady(p: Prog, all: Markers, g: Threaded, k: nat)
    requires
        g.len() == p.functions.len(),
        k <= g.len(),
        within(g, all),
        one_round(p, g, g.len()) == g,
    ensures
        one_round(p, g, k) == g,
    decreases g.len() - k,
{
    lemma_one_round(p, all, g, k);
    if k < g.len() {
        lemma_steady(p, all, g, k + 1);
        lemma_taken_over(p, all, one_round(p, g, k), k as int);
    }
}

/// A function threads each marker that a function threads which it calls.
pub proof fn law_callers_thread_what_callees_do(
    p: Prog,
    seed: Seq<(FunctionID, Markers)>,
    ops: Ops,
    i: int,
    callee: FunctionID,
    x: (Ty, Ty),
)
    requires
        0 <= i < p.functions.len(),
        !p.functions[i].1.is_native,
        p.functions[i].1.body.calls(callee),
        threads(p, threaded_by(p, seed, ops), callee).contains(x),
    ensures
        markers_of(threaded_by(p, seed, ops)[i]).contains(x),
{
    let all = universe(p, seed);
    let g = direct(p, seed, ops, all);
    lemma_direct_within(p, seed, ops);
    lemma_settled(p, all, g);
    let h = settled(p, all, g);
    lemma_steady(p, all, h, i as nat);
    lemma_steady(p, all, h, (i + 1) as nat);
    assert(taken_over(p, h, i) == h);
    let calls = calls_in(p.functions[i].1.body);
    let more = callee_markers(p, h, calls);
    lemma_calls_in(p.functions[i].1.body, callee);
    lemma_callee_markers(p, h, calls, x);
    assert(more.contains(x));
    let e = markers_of(h[i]);
    lemma_with_markers(e, more);
    assert(h.update(i, grown(p, h[i], more))[i] == h[i]);
    if with_markers(e, more).len() != e.len() {
        lemma_sorted(p, with_markers(e, more));
        assert(with_markers(e, more).contains(x));
        assert(sorted_markers(p, with_markers(e, more)).contains(x));
    } else {
        assert(with_markers(e, more).contains(x));
    }
}

/// Whether markers stand in the order of their keys.
pub open spec fn in_key_order(p: Prog, ms: Markers) -> bool {
    forall|i: int, j: int|
        0 <= i < j < ms.len() ==> !key_before(
            marker_key(p, (#[trigger] ms[j]).0),
            marker_key(p, (#[trigger] ms[i]).0),
        )
}

/// No key comes before one that comes before it, and what comes before a key comes before
/// all that do not come before that key.
proof fn lemma_keys(a: (Name, usize), b: (Name, usize), c: (Name, usize))
    requires
        key_before(a, b),
    ensures
        !key_before(b, a),
        !key_before(c, b) ==> key_before(a, c),
{
    crate::sorting::lemma_irreflexive(a.0);
    crate::sorting::lemma_irreflexive(b.0);
    if crate::sorting::precedes(a.0, b.0) && crate::sorting::precedes(b.0, a.0) {
        crate::sorting::lemma_transitive(a.0, b.0, a.0);
    }
    if b.0 != c.0 {
        crate::sorting::lemma_total(b.0, c.0);
        if crate::sorting::precedes(a.0, b.0) && crate::sorting::precedes(b.0, c.0) {
            crate::sorting::lemma_transitive(a.0, b.0, c.0);
        }
    }
}

/// Placing a marker keeps the order.
proof fn lemma_placed_in_order(p: Prog, s: Markers, m: (Ty, Ty))
    requires
        in_key_order(p, s),
    ensures
        in_key_order(p, placed_marker(p, s, m)),
    decreases s.len(),
{
    let r = placed_marker(p, s, m);
    let km = marker_key(p, m.0);
    if s.len() > 0 && key_before(km, marker_key(p, s.last().0)) {
        let a = s.drop_last();
        let t = placed_marker(p, a, m);
        let kl = marker_key(p, s.last().0);
        assert forall|i: int, j: int| 0 <= i < j < a.len() implies !key_before(
            marker_key(p, (#[trigger] a[j]).0),
            marker_key(p, (#[trigger] a[i]).0),
        ) by {
            assert(a[i] == s[i] && a[j] == s[j]);
        }
        lemma_placed_in_order(p, a, m);
        lemma_placed(p, a, m);
        assert forall|i: int, j: int| 0 <= i < j < r.len() implies !key_before(
            marker_key(p, (#[trigger] r[j]).0),
            marker_key(p, (#[trigger] r[i]).0),
        ) by {
            assert(r[i] == t[i]);
            if j < t.len() {
                assert(r[j] == t[j]);
            } else {
                assert(t.contains(t[i]));
                if a.contains(t[i]) {
                    let k = choose|k: int| 0 <= k < a.len() && a[k] == t[i];
                    assert(s[k] == t[i] && s[s.len() - 1] == s.last());
                } else {
                    lemma_keys(km, kl, km);
                }
            }
        }
    } else {
        assert forall|i: int, j: int| 0 <= i < j < r.len() implies !key_before(
            marker_key(p, (#[trigger] r[j]).0),
            marker_key(p, (#[trigger] r[i]).0),
        ) by {
            assert(r[i] == s[i]);
            if j < s.len() {
                assert(r[j] == s[j]);
            } else {
                let ki = marker_key(p, s[i].0);
                let kl = marker_key(p, s.last().0);
                if key_before(km, ki) {
                    if i < s.len() - 1 {
                        assert(!key_before(
                            marker_key(p, s[s.len() - 1].0),
                            marker_key(p, s[i].0),
                        ));
                        lemma_keys(km, ki, kl);
                    }
                }
            }
        }
    }
}

/// Sorted markers stand in order.
proof fn lemma_sorted_in_order(p: Prog, s: Markers)
    ensures
        in_key_order(p, sorted_markers(p, s)),
    decreases s.len(),
{
    if s.len() > 0 {
        lemma_sorted_in_order(p, s.drop_last());
        lemma_placed_in_order(p, sorted_markers(p, s.drop_last()), s.last());
    }
}

/// Whether each function that threads markers does so in the order of their keys, and
/// those that thread some in another record do so in this one.
spec fn orderly(p: Prog, from: Threaded, g: Threaded) -> bool {
    &&& g.len() == from.len()
    &&& forall|i: int|
        0 <= i < g.len() ==> ((#[trigger] g[i]) matches Some(ms) ==> in_key_order(p, ms)) && (
        from[i] is Some ==> g[i] is Some)
}

/// A round keeps the order.
proof fn lemma_round_orderly(p: Prog, from: Threaded, g: Threaded, k: nat)
    requires
        orderly(p, from, g),
        k <= g.len(),
        g.len() == p.functions.len(),
    ensures
        orderly(p, from, one_round(p, g, k)),
    decreases k,
{
    if k > 0 {
        lemma_round_orderly(p, from, g, (k - 1) as nat);
        let h = one_round(p, g, (k - 1) as nat);
        let more = callee_markers(p, h, calls_in(p.functions[k - 1].1.body));
        lemma_sorted_in_order(p, with_markers(markers_of(h[k - 1]), more));
        let t = taken_over(p, h, k - 1);
        assert forall|i: int| 0 <= i < t.len() implies ((#[trigger] t[i]) matches Some(ms)
            ==> in_key_order(p, ms)) && (from[i] is Some ==> t[i] is Some) by {
            assert(h[i] matches Some(ms) ==> in_key_order(p, ms));
        }
    }
}

/// Settling keeps the order.
proof fn lemma_settled_orderly(p: Prog, all: Markers, from: Threaded, g: Threaded)
    requires
        orderly(p, from, g),
        g.len() == p.functions.len(),
    ensures
        orderly(p, from, settled(p, all, g)),
    decreases missing(all, g, g.len()),
{
    let h = one_round(p, g, p.functions.len());
    lemma_round_orderly(p, from, g, p.functions.len());
    if h != g && missing(all, h, h.len()) < missing(all, g, g.len()) {
        lemma_settled_orderly(p, all, from, h);
    }
}

/// A function threads its markers in the order of the names of their structures, and
/// each function of the seed threads some.
pub proof fn law_markers_are_in_order(
    p: Prog,
    seed: Seq<(FunctionID, Markers)>,
    ops: Ops,
    i: int,
)
    requires
        0 <= i < p.functions.len(),
    ensures
        threaded_by(p, seed, ops).len() == p.functions.len(),
        threaded_by(p, seed, ops)[i] matches Some(ms) ==> in_key_order(p, ms),
        crate::program::slot(seed, p.functions[i].0) is Some ==> threaded_by(p, seed, ops)[i]
            is Some,
{
    let all = universe(p, seed);
    let g = direct(p, seed, ops, all);
    assert forall|k: int| 0 <= k < g.len() implies ((#[trigger] g[k]) matches Some(ms)
        ==> in_key_order(p, ms)) by {
        let own = match crate::program::lookup(seed, p.functions[k].0) {
            Some(ms) => {
                lemma_sorted_in_order(p, ms);
                Some(sorted_markers(p, ms))
            },
            None => None,
        };
        let more = op_markers(calls_in(p.functions[k].1.body), ops, all);
        lemma_sorted_in_order(p, with_markers(markers_of(own), more));
    }
    lemma_settled_orderly(p, all, g, g);
    assert(threaded_by(p, seed, ops)[i] == settled(p, all, g)[i]);
    assert(g[i] == direct_of(p, seed, ops, all, i));
}

} // verus!
