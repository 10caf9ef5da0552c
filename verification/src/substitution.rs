//! Putting values in the place of variables, and taking fields of known
//! structures.

use crate::assoc::place_of;
use crate::ir::{IRNode, Node};
use crate::traverse::{free_vars, map_nodes, Rewrite};
use crate::types::{Name, StructID, TempId};
use vstd::prelude::*;

verus! {

/// The values of variables; none where a variable cannot be written out.
pub type Subst = Seq<(Name, Option<Node>)>;

/// What an optional expression holds.
pub open spec fn optional_node(x: Option<IRNode>) -> Option<Node> {
    match x {
        Some(n) => Some(n@),
        None => None,
    }
}

/// What an executable list of values holds.
pub open spec fn subst_views(s: Seq<(TempId, Option<IRNode>)>) -> Subst {
    Seq::new(s.len(), |i: int| (s[i].0@, optional_node(s[i].1)))
}

/// Both views have the same names.
pub proof fn lemma_subst_keys(s: Seq<(TempId, Option<IRNode>)>)
    ensures
        crate::assoc::key_views(s) == crate::assoc::keys(subst_views(s)),
{
    assert(crate::assoc::key_views(s) =~= crate::assoc::keys(subst_views(s)));
}

/// A copy of an optional expression.
pub fn clone_optional(x: &Option<IRNode>) -> (r: Option<IRNode>)
    ensures
        optional_node(r) == optional_node(*x),
{
    match x {
        Some(n) => Some(n.clone()),
        None => None,
    }
}

/// A copy of a list of values.
pub fn clone_subst(s: &Vec<(TempId, Option<IRNode>)>) -> (r: Vec<(TempId, Option<IRNode>)>)
    ensures
        subst_views(r@) == subst_views(s@),
{
    let mut out: Vec<(TempId, Option<IRNode>)> = Vec::new();
    let mut i: usize = 0;
    while i < s.len()
        invariant
            i <= s.len(),
            out@.len() == i,
            forall|j: int| #![trigger out@[j]]
                0 <= j < i ==> out@[j].0@ == s@[j].0@ && optional_node(out@[j].1) == optional_node(
                    s@[j].1,
                ),
        decreases s.len() - i,
    {
        out.push((s[i].0.clone(), clone_optional(&s[i].1)));
        i += 1;
    }
    assert(subst_views(out@) =~= subst_views(s@));
    out
}

/// Gives a variable a value.
pub fn put_subst(s: &mut Vec<(TempId, Option<IRNode>)>, x: &TempId, v: Option<IRNode>)
    ensures
        subst_views(final(s)@) == crate::assoc::put(
            subst_views(old(s)@),
            x@,
            optional_node(v),
        ),
{
    proof {
        lemma_subst_keys(s@);
    }
    let ghost before = subst_views(s@);
    let ghost value = optional_node(v);
    match place_of(s, x) {
        Some(i) => {
            s[i] = (x.clone(), v);
            assert(subst_views(s@) =~= before.update(i as int, (x@, value)));
        },
        None => {
            s.push((x.clone(), v));
            assert(subst_views(s@) =~= before.push((x@, value)));
        },
    }
}

/// A variable with its value in its place.
pub open spec fn written_out(n: Node, s: Subst) -> Node {
    match n {
        Node::Var(x) => match crate::assoc::found(s, x) {
            Some(Some(e)) => e,
            _ => n,
        },
        _ => n,
    }
}

/// The field of an expression; of a structure that is built or updated there, what
/// the field was given.
pub open spec fn field_of(struct_id: StructID, field_index: usize, base: Node) -> Node
    decreases base,
{
    match base {
        Node::UpdateField { base: inner, struct_id: s, field_index: j, value } => if s
            == struct_id {
            if j == field_index {
                *value
            } else {
                field_of(struct_id, field_index, *inner)
            }
        } else {
            Node::Field { struct_id, field_index, base: Box::new(base) }
        },
        Node::Pack { struct_id: s, fields, variant_index: None, .. } => if s == struct_id
            && field_index < fields.len() {
            fields[field_index as int]
        } else {
            Node::Field { struct_id, field_index, base: Box::new(base) }
        },
        _ => Node::Field { struct_id, field_index, base: Box::new(base) },
    }
}

/// The expression with a field of a known structure taken, at its root.
pub open spec fn projected(n: Node) -> Node {
    match n {
        Node::Field { struct_id, field_index, base } => field_of(struct_id, field_index, *base),
        _ => n,
    }
}

/// The field of an expression.
fn take_field(struct_id: StructID, field_index: usize, base: IRNode) -> (r: IRNode)
    ensures
        r@ == field_of(struct_id, field_index, base@),
    decreases base,
{
    match base {
        IRNode::UpdateField { base: inner, struct_id: s, field_index: j, value } => {
            if s == struct_id {
                if j == field_index {
                    *value
                } else {
                    take_field(struct_id, field_index, *inner)
                }
            } else {
                let b = IRNode::UpdateField { base: inner, struct_id: s, field_index: j, value };
                IRNode::Field { struct_id, field_index, base: Box::new(b) }
            }
        },
        IRNode::Pack { struct_id: s, type_args, fields, variant_index } => {
            assert(IRNode::views(fields@).len() == fields@.len());
            if s == struct_id && variant_index.is_none() && field_index < fields.len() {
                assert(IRNode::views(fields@)[field_index as int] == fields@[field_index as int]@);
                fields[field_index].clone()
            } else {
                let b = IRNode::Pack { struct_id: s, type_args, fields, variant_index };
                IRNode::Field { struct_id, field_index, base: Box::new(b) }
            }
        },
        other => IRNode::Field { struct_id, field_index, base: Box::new(other) },
    }
}

/// Takes a field of a known structure, at the root of an expression.
fn fold_proj(n: IRNode) -> (r: IRNode)
    ensures
        r@ == projected(n@),
{
    match n {
        IRNode::Field { struct_id, field_index, base } => take_field(
            struct_id,
            field_index,
            *base,
        ),
        other => other,
    }
}

/// The step that takes fields of known structures.
struct Project;

impl Rewrite for Project {
    closed spec fn accepts(&self, n: Node) -> bool {
        true
    }

    closed spec fn step(&self, n: Node) -> Node {
        projected(n)
    }

    fn apply(&self, n: IRNode) -> (r: IRNode) {
        fold_proj(n)
    }
}

/// The expression with all fields of known structures taken.
pub open spec fn all_projected(n: Node) -> Node {
    n.map(|m: Node| projected(m))
}

/// Takes all fields of known structures.
pub fn fold_all_projs(node: &IRNode) -> (r: IRNode)
    ensures
        r@ == all_projected(node@),
{
    let t = Project;
    proof {
        node@.lemma_map_accepts_all(|n: Node| t.step(n), |n: Node| t.accepts(n));
        assert((|n: Node| t.step(n)) =~= (|n: Node| projected(n)));
    }
    map_nodes(node, &t)
}

/// The step of a substitution: a variable's value, and fields of known structures.
pub open spec fn substituted_here(n: Node, s: Subst) -> Node {
    if n is Var {
        written_out(n, s)
    } else {
        projected(n)
    }
}

/// The step of a substitution.
struct Substitute<'a> {
    s: &'a Vec<(TempId, Option<IRNode>)>,
}

impl<'a> Rewrite for Substitute<'a> {
    closed spec fn accepts(&self, n: Node) -> bool {
        true
    }

    closed spec fn step(&self, n: Node) -> Node {
        substituted_here(n, subst_views(self.s@))
    }

    fn apply(&self, n: IRNode) -> (r: IRNode) {
        match n {
            IRNode::Var(x) => write_out(x, self.s),
            other => fold_proj(other),
        }
    }
}

/// A variable's value, or the variable.
fn write_out(x: TempId, s: &Vec<(TempId, Option<IRNode>)>) -> (r: IRNode)
    ensures
        r@ == written_out(Node::Var(x@), subst_views(s@)),
{
    proof {
        lemma_subst_keys(s@);
    }
    match place_of(s, &x) {
        Some(i) => {
            assert(subst_views(s@)[i as int].1 == optional_node(s@[i as int].1));
            match &s[i].1 {
                Some(e) => e.clone(),
                None => IRNode::Var(x),
            }
        },
        None => IRNode::Var(x),
    }
}

/// Whether the expression mentions a variable that cannot be written out.
pub open spec fn mentions_opaque(n: Node, s: Subst) -> bool {
    exists|x: Name| #[trigger] n.free(x) && crate::assoc::found(s, x) == Some(None::<Node>)
}

/// The expression with the values of its variables written out; none where one
/// cannot be.
pub open spec fn substituted(n: Node, s: Subst) -> Option<Node> {
    if mentions_opaque(n, s) {
        None
    } else {
        Some(all_projected(n.map(|m: Node| substituted_here(m, s))))
    }
}

/// Whether a variable cannot be written out.
fn is_opaque(s: &Vec<(TempId, Option<IRNode>)>, x: &TempId) -> (r: bool)
    ensures
        r == (crate::assoc::found(subst_views(s@), x@) == Some(None::<Node>)),
{
    proof {
        lemma_subst_keys(s@);
    }
    match place_of(s, x) {
        Some(i) => {
            assert(subst_views(s@)[i as int].1 == optional_node(s@[i as int].1));
            s[i].1.is_none()
        },
        None => false,
    }
}

/// The first free variable that cannot be written out, if there is one.
fn finds_opaque(node: &IRNode, s: &Vec<(TempId, Option<IRNode>)>) -> (r: bool)
    ensures
        r == mentions_opaque(node@, subst_views(s@)),
{
    let frees = free_vars(node);
    let ghost fs = crate::ir::names(frees@);
    let ghost sv = subst_views(s@);
    let mut i: usize = 0;
    while i < frees.len()
        invariant
            i <= frees.len(),
            fs == crate::ir::names(frees@),
            sv == subst_views(s@),
            forall|x: Name| #[trigger] fs.contains(x) <==> node@.free(x),
            forall|j: int|
                0 <= j < i ==> crate::assoc::found(sv, #[trigger] fs[j]) != Some(None::<Node>),
        decreases frees.len() - i,
    {
        assert(fs[i as int] == frees@[i as int]@);
        assert(fs.contains(fs[i as int]));
        if is_opaque(s, &frees[i]) {
            assert(node@.free(fs[i as int]));
            return true;
        }
        i += 1;
    }
    assert(!mentions_opaque(node@, sv)) by {
        if mentions_opaque(node@, sv) {
            let x = choose|x: Name|
                #[trigger] node@.free(x) && crate::assoc::found(sv, x) == Some(None::<Node>);
            assert(fs.contains(x));
            let j = choose|j: int| 0 <= j < fs.len() && fs[j] == x;
            assert(crate::assoc::found(sv, fs[j]) != Some(None::<Node>));
        }
    }
    false
}

/// Writes the values of variables out; none where one cannot be.
pub fn bundle_subst(node: &IRNode, s: &Vec<(TempId, Option<IRNode>)>) -> (r: Option<IRNode>)
    ensures
        optional_node(r) == substituted(node@, subst_views(s@)),
{
    if finds_opaque(node, s) {
        return None;
    }
    let t = Substitute { s };
    proof {
        node@.lemma_map_accepts_all(|n: Node| t.step(n), |n: Node| t.accepts(n));
        assert((|n: Node| t.step(n)) =~= (|n: Node| substituted_here(n, subst_views(s@))));
    }
    let out = map_nodes(node, &t);
    Some(fold_all_projs(&out))
}

/// The expression with the values of variables in their place, and nothing else
/// changed.
pub open spec fn inlined(n: Node, s: Subst) -> Node {
    n.map(|m: Node| written_out(m, s))
}

/// The step that puts values in the place of variables.
struct Inline<'a> {
    s: &'a Vec<(TempId, Option<IRNode>)>,
}

impl<'a> Rewrite for Inline<'a> {
    closed spec fn accepts(&self, n: Node) -> bool {
        true
    }

    closed spec fn step(&self, n: Node) -> Node {
        written_out(n, subst_views(self.s@))
    }

    fn apply(&self, n: IRNode) -> (r: IRNode) {
        match n {
            IRNode::Var(x) => write_out(x, self.s),
            other => other,
        }
    }
}

/// Puts the values of variables in their place.
pub fn subst_exprs(node: &IRNode, s: &Vec<(TempId, Option<IRNode>)>) -> (r: IRNode)
    ensures
        r@ == inlined(node@, subst_views(s@)),
{
    let t = Inline { s };
    proof {
        node@.lemma_map_accepts_all(|n: Node| t.step(n), |n: Node| t.accepts(n));
        assert((|n: Node| t.step(n)) =~= (|n: Node| written_out(n, subst_views(s@))));
    }
    map_nodes(node, &t)
}

/// The weight that counts the places at which a variable stands.
pub open spec fn standing(x: Name) -> spec_fn(Node) -> nat {
    |n: Node|
        if n == Node::Var(x) {
            1nat
        } else {
            0nat
        }
}

/// Whether a variable stands at more than one place.
pub open spec fn stands_often(n: Node, x: Name) -> bool {
    n.weight(standing(x)) > 1
}

/// How often a variable stands in an expression, at most two.
fn count_two(node: &IRNode, x: &TempId) -> (r: usize)
    ensures
        r <= 2,
        node@.weight(standing(x@)) <= 2 ==> r == node@.weight(standing(x@)),
        node@.weight(standing(x@)) > 2 ==> r == 2,
    decreases node@,
{
    let ghost w = standing(x@);
    let mut n: usize = match node {
        IRNode::Var(y) => if *y == *x {
            1
        } else {
            0
        },
        _ => 0,
    };
    assert(n == w(node@));
    let ks = node.children();
    let mut i: usize = 0;
    let ghost mut seen: nat = n as nat;
    proof {
        node@.lemma_kids_decrease();
    }
    while i < ks.len()
        invariant
            i <= ks.len(),
            w == standing(x@),
            n <= 2,
            seen <= 2 ==> n == seen,
            seen > 2 ==> n == 2,
            seen + node@.weight_from(w, i as nat) == node@.weight(w),
            ks@.len() == node@.kids().len(),
            forall|j: int| 0 <= j < ks@.len() ==> (#[trigger] ks@[j])@ == node@.kids()[j],
            forall|j: int| 0 <= j < node@.kids().len() ==> decreases_to!(
                node@ => #[trigger] node@.kids()[j]
            ),
        decreases ks.len() - i,
    {
        assert(ks@[i as int]@ == node@.kids()[i as int]);
        let more = count_two(ks[i], x);
        proof {
            seen = seen + node@.kids()[i as int].weight(w);
        }
        n = if n + more > 2 {
            2
        } else {
            n + more
        };
        i += 1;
    }
    n
}

/// Whether a variable stands at more than one place.
pub fn occurs_often(node: &IRNode, x: &TempId) -> (r: bool)
    ensures
        r == stands_often(node@, x@),
{
    count_two(node, x) > 1
}

/// The field that an update gave a value is that value.
pub proof fn law_field_of_update(base: Node, struct_id: StructID, field_index: usize, value: Node)
    ensures
        projected(
            Node::Field {
                struct_id,
                field_index,
                base: Box::new(
                    Node::UpdateField {
                        base: Box::new(base),
                        struct_id,
                        field_index,
                        value: Box::new(value),
                    },
                ),
            },
        ) == value,
{
}

} // verus!
