//! Dynamic fields as entries of a typed map in the structure that owns them.
//!
//! Calls of the functions that work on dynamic fields become calls of the
//! functions of the map, on the field of the owner that holds the map; what put
//! the owner's identity back puts the changed map back instead.

use crate::assoc::place_of;
use crate::df_borrows::{rewrite_borrow_mut_pre, BorrowContext, Borrows};
use crate::ir::{clone_names, IRNode, Node};
use crate::program::{slot_of, Func, Function, Param, Parameter, Prog, Program};
use crate::traverse::{any_node, contains_name, Test};
use crate::typed_maps::{
    build_df_field_map, create_typed_map_module, entries_in, find_dynamic_field_functions,
    lookup_df_entry, struct_id_of, types_of_map, DfFieldEntry, DynFieldOp, Entry, FieldMap,
    TypedMapFunctions,
};
use crate::types::{FunctionID, Name, StructID, TempId, Ty, Type};
use vstd::prelude::*;

verus! {

/// The variables that hold the identity of a structure: which structure, and the
/// expression for it.
pub type Parents = Seq<(Name, (StructID, Node))>;

/// What an executable list of such variables holds.
pub open spec fn parent_views(s: Seq<(TempId, (StructID, IRNode))>) -> Parents {
    Seq::new(s.len(), |i: int| (s[i].0@, (s[i].1.0, s[i].1.1@)))
}

/// Notes what a variable holds the identity of.
fn put_parent(s: &mut Vec<(TempId, (StructID, IRNode))>, x: &TempId, id: StructID, parent: IRNode)
    ensures
        parent_views(final(s)@) == crate::assoc::put(parent_views(old(s)@), x@, (id, parent@)),
{
    let ghost before = parent_views(s@);
    assert(crate::assoc::key_views(s@) =~= crate::assoc::keys(before));
    match place_of(s, x) {
        Some(i) => {
            s[i] = (x.clone(), (id, parent));
            assert(parent_views(s@) =~= before.update(i as int, (x@, (id, parent@))));
        },
        None => {
            s.push((x.clone(), (id, parent)));
            assert(parent_views(s@) =~= before.push((x@, (id, parent@))));
        },
    }
}

/// What a variable holds the identity of.
fn find_parent(s: &Vec<(TempId, (StructID, IRNode))>, x: &TempId) -> (r: Option<(StructID, IRNode)>)
    ensures
        match r {
            Some((id, parent)) => crate::assoc::found(parent_views(s@), x@) == Some((id, parent@)),
            None => crate::assoc::found(parent_views(s@), x@) is None,
        },
{
    assert(crate::assoc::key_views(s@) =~= crate::assoc::keys(parent_views(s@)));
    match place_of(s, x) {
        Some(i) => Some((s[i].1.0, s[i].1.1.clone())),
        None => None,
    }
}

/// What the rewriting of calls works with: the functions that work on dynamic
/// fields, the fields that hold them, and the functions of the map.
pub struct Calls {
    pub ops: Seq<(FunctionID, DynFieldOp)>,
    pub map: FieldMap,
    pub tm: TypedMapFunctions,
}

/// The executable [`Calls`].
pub struct CallContext<'a> {
    pub ops: &'a Vec<(FunctionID, DynFieldOp)>,
    pub map: &'a Vec<(StructID, Vec<DfFieldEntry>)>,
    pub tm: TypedMapFunctions,
}

impl<'a> CallContext<'a> {
    /// What the context holds.
    pub open spec fn view(&self) -> Calls {
        Calls { ops: self.ops@, map: crate::typed_maps::map_views(self.map@), tm: self.tm }
    }
}

/// Whether one of the variables stands in the expression.
pub open spec fn stands_in(n: Node, xs: Seq<Name>) -> bool {
    n.any(|m: Node| m matches Node::Var(x) && xs.contains(x))
}

/// The test for one of some variables.
struct OneOf<'a> {
    xs: &'a Vec<TempId>,
}

impl<'a> Test for OneOf<'a> {
    closed spec fn holds(&self, n: Node) -> bool {
        n matches Node::Var(x) && crate::ir::names(self.xs@).contains(x)
    }

    fn check(&self, n: &IRNode) -> (r: bool) {
        match n {
            IRNode::Var(x) => contains_name(self.xs, x),
            _ => false,
        }
    }
}

/// Whether one of the variables stands in the expression.
fn references_any_of(n: &IRNode, xs: &Vec<TempId>) -> (r: bool)
    ensures
        r == stands_in(n@, crate::ir::names(xs@)),
{
    let t = OneOf { xs };
    assert((|m: Node| t.holds(m)) =~= (|m: Node|
        m matches Node::Var(x) && crate::ir::names(xs@).contains(x)));
    any_node(n, &t)
}

/// An update of a structure's identity with one of the variables, as an update of
/// the field that holds the map.
pub open spec fn refielded(n: Node, xs: Seq<Name>, id: StructID, field: usize) -> Node {
    match n {
        Node::UpdateField { base, struct_id, field_index, value } => if struct_id == id
            && field_index == 0 && stands_in(*value, xs) {
            Node::UpdateField { base, struct_id, field_index: field, value }
        } else {
            n
        },
        _ => n,
    }
}

/// Turns an update of a structure's identity with one of the variables into one of
/// the field that holds the map.
fn fix_update_field(n: &IRNode, xs: &Vec<TempId>, id: StructID, field: usize) -> (r: IRNode)
    ensures
        r@ == refielded(n@, crate::ir::names(xs@), id, field),
{
    match n {
        IRNode::UpdateField { base, struct_id, field_index, value } => if *struct_id == id
            && *field_index == 0 && references_any_of(value, xs) {
            IRNode::UpdateField {
                base: base.clone(),
                struct_id: *struct_id,
                field_index: field,
                value: value.clone(),
            }
        } else {
            n.clone()
        },
        _ => n.clone(),
    }
}

/// The expression with the bindings that put one of the variables back as the
/// identity of the structure putting it back as the map.
pub open spec fn map_put_back(n: Node, xs: Seq<Name>, id: StructID, field: usize) -> Node
    decreases n,
{
    match n {
        Node::Let { pattern, value, body } => Node::Let {
            pattern,
            value: Box::new(refielded(*value, xs, id, field)),
            body: Box::new(map_put_back(*body, xs, id, field)),
        },
        Node::If { cond, then_branch, else_branch } => Node::If {
            cond: Box::new(map_put_back(*cond, xs, id, field)),
            then_branch: Box::new(map_put_back(*then_branch, xs, id, field)),
            else_branch: Box::new(map_put_back(*else_branch, xs, id, field)),
        },
        _ => n,
    }
}

/// Putting the map back in place of the identity leaves a walk no more to reach.
proof fn lemma_put_back_lighter(n: Node, xs: Seq<Name>, id: StructID, field: usize)
    ensures
        map_put_back(n, xs, id, field).load() <= n.load(),
    decreases n,
{
    match n {
        Node::Let { pattern, value, body } => {
            lemma_put_back_lighter(*body, xs, id, field);
            assert(refielded(*value, xs, id, field).load() <= value.load());
            map_put_back(n, xs, id, field).lemma_load_lighter(n);
        },
        Node::If { cond, then_branch, else_branch } => {
            lemma_put_back_lighter(*cond, xs, id, field);
            lemma_put_back_lighter(*then_branch, xs, id, field);
            lemma_put_back_lighter(*else_branch, xs, id, field);
            map_put_back(n, xs, id, field).lemma_load_lighter(n);
        },
        _ => {},
    }
}

/// Puts the variables back as the map where they were put back as the identity.
fn fix_reconstruction(n: &IRNode, xs: &Vec<TempId>, id: StructID, field: usize) -> (r: IRNode)
    ensures
        r@ == map_put_back(n@, crate::ir::names(xs@), id, field),
    decreases n@,
{
    match n {
        IRNode::Let { pattern, value, body } => IRNode::Let {
            pattern: clone_names(pattern),
            value: Box::new(fix_update_field(value, xs, id, field)),
            body: Box::new(fix_reconstruction(body, xs, id, field)),
        },
        IRNode::If { cond, then_branch, else_branch } => IRNode::If {
            cond: Box::new(fix_reconstruction(cond, xs, id, field)),
            then_branch: Box::new(fix_reconstruction(then_branch, xs, id, field)),
            else_branch: Box::new(fix_reconstruction(else_branch, xs, id, field)),
        },
        _ => n.clone(),
    }
}

/// The variable that a binding of nothing writes back to the slot, where it is one
/// of the variables.
pub open spec fn slot_write(
    pattern: Seq<Name>,
    value: Node,
    xs: Seq<Name>,
    slot: Name,
) -> Option<Name> {
    match value {
        Node::WriteBack { child, parent, .. } => if pattern.len() == 0 && parent == slot
            && xs.contains(child) {
            Some(child)
        } else {
            None
        },
        _ => None,
    }
}

/// The variable that a binding of nothing writes back to the slot.
fn find_slot_write(
    pattern: &Vec<TempId>,
    value: &IRNode,
    xs: &Vec<TempId>,
    slot: &TempId,
) -> (r: Option<TempId>)
    ensures
        crate::shadowing::optional_name(r) == slot_write(
            crate::ir::names(pattern@),
            value@,
            crate::ir::names(xs@),
            slot@,
        ),
{
    assert(crate::ir::names(pattern@).len() == pattern@.len());
    match value {
        IRNode::WriteBack { child, parent, .. } => if pattern.len() == 0 && *parent == *slot
            && contains_name(xs, child) {
            Some(child.clone())
        } else {
            None
        },
        _ => None,
    }
}

/// What becomes of the write-backs to the slot that held the identity.
pub enum Slot {
    /// They are taken out.
    Dropped,
    /// They set the field that holds the map in the variable of the structure.
    Sets { parent: Name, struct_id: StructID, field: usize },
}

/// The executable [`Slot`].
enum SlotFix {
    Dropped,
    Sets { parent: TempId, struct_id: StructID, field: usize },
}

impl SlotFix {
    /// What the value holds.
    spec fn view(&self) -> Slot {
        match *self {
            SlotFix::Dropped => Slot::Dropped,
            SlotFix::Sets { parent, struct_id, field } => Slot::Sets {
                parent: parent@,
                struct_id,
                field,
            },
        }
    }
}

/// The expression with the write-backs of the variables to the slot taken out or
/// redirected.
pub open spec fn slot_fixed(n: Node, xs: Seq<Name>, slot: Name, how: Slot) -> Node
    decreases n,
{
    match n {
        Node::Let { pattern, value, body } => {
            let rest = slot_fixed(*body, xs, slot, how);
            match slot_write(pattern, *value, xs, slot) {
                Some(child) => match how {
                    Slot::Dropped => rest,
                    Slot::Sets { parent, struct_id, field } => Node::Let {
                        pattern: seq![parent],
                        value: Box::new(
                            Node::UpdateField {
                                base: Box::new(Node::Var(parent)),
                                struct_id,
                                field_index: field,
                                value: Box::new(Node::Var(child)),
                            },
                        ),
                        body: Box::new(rest),
                    },
                },
                None => Node::Let { pattern, value, body: Box::new(rest) },
            }
        },
        Node::If { cond, then_branch, else_branch } => Node::If {
            cond,
            then_branch: Box::new(slot_fixed(*then_branch, xs, slot, how)),
            else_branch: Box::new(slot_fixed(*else_branch, xs, slot, how)),
        },
        _ => n,
    }
}

/// Fixing write-backs leaves a walk no more to reach.
proof fn lemma_slot_fixed_lighter(n: Node, xs: Seq<Name>, slot: Name, how: Slot)
    ensures
        slot_fixed(n, xs, slot, how).load() <= n.load(),
    decreases n,
{
    match n {
        Node::Let { pattern, value, body } => {
            lemma_slot_fixed_lighter(*body, xs, slot, how);
            n.lemma_load_kid(1);
            if slot_write(pattern, *value, xs, slot) is None || how is Sets {
                slot_fixed(n, xs, slot, how).lemma_load_lighter(n);
            }
        },
        Node::If { cond, then_branch, else_branch } => {
            lemma_slot_fixed_lighter(*then_branch, xs, slot, how);
            lemma_slot_fixed_lighter(*else_branch, xs, slot, how);
            slot_fixed(n, xs, slot, how).lemma_load_lighter(n);
        },
        _ => {},
    }
}

/// Takes out or redirects the write-backs of the variables to the slot.
fn fix_slot(n: &IRNode, xs: &Vec<TempId>, slot: &TempId, how: &SlotFix) -> (r: IRNode)
    ensures
        r@ == slot_fixed(n@, crate::ir::names(xs@), slot@, how@),
    decreases n@,
{
    match n {
        IRNode::Let { pattern, value, body } => {
            let rest = fix_slot(body, xs, slot, how);
            match find_slot_write(pattern, value, xs, slot) {
                Some(child) => match how {
                    SlotFix::Dropped => rest,
                    SlotFix::Sets { parent, struct_id, field } => {
                        let mut own: Vec<TempId> = Vec::new();
                        own.push(parent.clone());
                        assert(crate::ir::names(own@) =~= seq![parent@]);
                        let base = IRNode::Var(parent.clone());
                        let value = IRNode::Var(child);
                        let update = IRNode::UpdateField {
                            base: Box::new(base),
                            struct_id: *struct_id,
                            field_index: *field,
                            value: Box::new(value),
                        };
                        assert(update@ == Node::UpdateField {
                            base: Box::new(base@),
                            struct_id: *struct_id,
                            field_index: *field,
                            value: Box::new(value@),
                        });
                        IRNode::Let { pattern: own, value: Box::new(update), body: Box::new(rest) }
                    },
                },
                None => IRNode::Let {
                    pattern: clone_names(pattern),
                    value: value.clone(),
                    body: Box::new(rest),
                },
            }
        },
        IRNode::If { cond, then_branch, else_branch } => IRNode::If {
            cond: cond.clone(),
            then_branch: Box::new(fix_slot(then_branch, xs, slot, how)),
            else_branch: Box::new(fix_slot(else_branch, xs, slot, how)),
        },
        _ => n.clone(),
    }
}

/// The structure whose identity the argument of a call is: it reads the first
/// field, or is a variable that holds the identity.
pub open spec fn arg_parent(n: Node, ps: Parents) -> Option<(StructID, Node)> {
    match n {
        Node::Field { struct_id, field_index, base } => if field_index == 0 {
            Some((struct_id, *base))
        } else {
            None
        },
        Node::Var(x) => crate::assoc::found(ps, x),
        _ => None,
    }
}

/// The structure whose identity the argument of a call is.
fn extract_parent_info_ctx(n: &IRNode, ps: &Vec<(TempId, (StructID, IRNode))>) -> (r: Option<
    (StructID, IRNode),
>)
    ensures
        match r {
            Some((id, parent)) => arg_parent(n@, parent_views(ps@)) == Some((id, parent@)),
            None => arg_parent(n@, parent_views(ps@)) is None,
        },
{
    match n {
        IRNode::Field { struct_id, field_index, base } => if *field_index == 0 {
            Some((*struct_id, (**base).clone()))
        } else {
            None
        },
        IRNode::Var(x) => find_parent(ps, x),
        _ => None,
    }
}

/// The function of the map that does what an operation does.
pub open spec fn map_call(op: DynFieldOp, tm: TypedMapFunctions) -> FunctionID {
    match op {
        DynFieldOp::Add => tm.set_id,
        DynFieldOp::Remove => tm.erase_id,
        DynFieldOp::RemoveIfExists => tm.erase_if_exists_id,
        DynFieldOp::Borrow => tm.get_id,
        DynFieldOp::BorrowMut => tm.get_id,
        DynFieldOp::Exists => tm.has_id,
    }
}

/// The number of arguments of an operation: the owner and the key, and the value
/// that is added.
pub open spec fn arity(op: DynFieldOp) -> nat {
    if op == DynFieldOp::Add {
        3
    } else {
        2
    }
}

/// Where a call works: the structure, the expression for it, and the field that
/// holds the map. Mutable borrows are no such calls, and a call that lacks
/// arguments works nowhere.
pub open spec fn call_place(
    op: DynFieldOp,
    types: Seq<Ty>,
    args: Seq<Node>,
    c: Calls,
    ps: Parents,
) -> Option<(StructID, Node, Entry)> {
    if op == DynFieldOp::BorrowMut || args.len() < arity(op) {
        None
    } else {
        match arg_parent(args[0], ps) {
            Some((id, parent)) => match crate::typed_maps::chosen_entry(c.map, id, types) {
                Some(e) => Some((id, parent, e)),
                None => None,
            },
            None => None,
        }
    }
}

/// The call of a function of the map.
pub open spec fn on_map(
    op: DynFieldOp,
    types: Seq<Ty>,
    args: Seq<Node>,
    tm: TypedMapFunctions,
    at: (StructID, Node, Entry),
) -> Node {
    Node::Call {
        function: map_call(op, tm),
        type_args: crate::typed_maps::map_types(at.2, types),
        args: seq![crate::df_borrows::field_of(at.0, at.2.field_index, at.1)] + args.subrange(
            1,
            arity(op) as int,
        ),
    }
}

/// What follows a call that changes the map, with the changed map put back.
pub open spec fn body_on_map(
    op: DynFieldOp,
    pattern: Seq<Name>,
    first: Node,
    body: Node,
    at: (StructID, Node, Entry),
) -> Node {
    let (id, parent, e) = at;
    let back = map_put_back(body, pattern, id, e.field_index);
    match op {
        DynFieldOp::Add => match first {
            Node::Var(slot) => slot_fixed(
                back,
                pattern,
                slot,
                match parent {
                    Node::Var(x) => Slot::Sets { parent: x, struct_id: id, field: e.field_index },
                    _ => Slot::Dropped,
                },
            ),
            _ => back,
        },
        DynFieldOp::Remove | DynFieldOp::RemoveIfExists => match first {
            Node::Var(slot) => slot_fixed(back, pattern, slot, Slot::Dropped),
            _ => back,
        },
        _ => body,
    }
}

/// The call of a function that works on dynamic fields, as a call on the map.
pub open spec fn call_replaced(n: Node, c: Calls, ps: Parents) -> Option<Node> {
    match n {
        Node::Call { function, type_args, args } => match crate::program::lookup(c.ops, function) {
            Some(op) => match call_place(op, type_args, args, c, ps) {
                Some(at) => Some(on_map(op, type_args, args, c.tm, at)),
                None => None,
            },
            None => None,
        },
        _ => None,
    }
}

/// The binding of such a call, as a binding of a call on the map.
pub open spec fn let_replaced(n: Node, c: Calls, ps: Parents) -> Option<Node> {
    match n {
        Node::Let { pattern, value, body } => match *value {
            Node::Call { function, type_args, args } => match crate::program::lookup(
                c.ops,
                function,
            ) {
                Some(op) => match call_place(op, type_args, args, c, ps) {
                    Some(at) => Some(
                        Node::Let {
                            pattern,
                            value: Box::new(on_map(op, type_args, args, c.tm, at)),
                            body: Box::new(body_on_map(op, pattern, args[0], *body, at)),
                        },
                    ),
                    None => None,
                },
                None => None,
            },
            _ => None,
        },
        _ => None,
    }
}

/// The variables that hold an identity, after a binding: one that reads the first
/// field of a structure that holds dynamic fields, or copies such a variable.
pub open spec fn parents_noted(n: Node, c: Calls, ps: Parents) -> Parents {
    match n {
        Node::Let { pattern, value, .. } => if pattern.len() == 1 {
            match *value {
                Node::Field { struct_id, field_index, base } => if field_index == 0
                    && crate::typed_maps::has_fields(c.map, struct_id) {
                    crate::assoc::put(ps, pattern[0], (struct_id, *base))
                } else {
                    ps
                },
                Node::Var(x) => match crate::assoc::found(ps, x) {
                    Some(e) => crate::assoc::put(ps, pattern[0], e),
                    None => ps,
                },
                _ => ps,
            }
        } else {
            ps
        },
        _ => ps,
    }
}

/// A mutable borrow of the identity of a structure with one field that holds
/// dynamic fields, as a borrow of that field.
pub open spec fn borrow_of_map(n: Node, c: Calls) -> Node {
    match n {
        Node::MutableBorrow { val_expr, reconstruct_param, reconstruct_expr, state_type } =>
        match *val_expr {
            Node::Field { struct_id, field_index, base } => match crate::program::lookup(
                c.map,
                struct_id,
            ) {
                Some(es) => if field_index == 0 && es.len() == 1 {
                    Node::MutableBorrow {
                        val_expr: Box::new(
                            Node::Field { struct_id, field_index: es[0].field_index, base },
                        ),
                        reconstruct_param,
                        reconstruct_expr: Box::new(
                            refielded(
                                *reconstruct_expr,
                                seq![reconstruct_param],
                                struct_id,
                                es[0].field_index,
                            ),
                        ),
                        state_type,
                    }
                } else {
                    n
                },
                None => n,
            },
            _ => n,
        },
        _ => n,
    }
}

/// A call on the map leaves a walk no more to reach than the call it replaces.
proof fn lemma_on_map_lighter(
    n: Node,
    op: DynFieldOp,
    types: Seq<Ty>,
    args: Seq<Node>,
    tm: TypedMapFunctions,
    at: (StructID, Node, Entry),
)
    requires
        n is Call,
        n.kids() == args,
        args.len() >= arity(op),
    ensures
        on_map(op, types, args, tm, at).load() <= n.load(),
{
    let m = on_map(op, types, args, tm, at);
    assert(m.kids().len() == arity(op));
    assert forall|i: int| 0 <= i < m.kids().len() implies (#[trigger] m.kids()[i]).load()
        <= n.kids()[i].load() by {
        if i > 0 {
            assert(m.kids()[i] == args[i]);
        } else {
            assert(m.kids()[0].load() == 1);
        }
    }
    m.lemma_load_lighter(n);
}

/// A binding of a call on the map leaves a walk no more to reach than the binding
/// it replaces.
pub proof fn lemma_replaced_lighter(n: Node, c: Calls, ps: Parents)
    requires
        let_replaced(n, c, ps) is Some,
    ensures
        let_replaced(n, c, ps)->0 is Let,
        (let_replaced(n, c, ps)->0).load() <= n.load(),
{
    let m = let_replaced(n, c, ps)->0;
    match n {
        Node::Let { pattern, value, body } => match *value {
            Node::Call { function, type_args, args } => {
                let op = crate::program::lookup(c.ops, function)->0;
                let at = call_place(op, type_args, args, c, ps)->0;
                lemma_on_map_lighter(*value, op, type_args, args, c.tm, at);
                let (id, parent, e) = at;
                let back = map_put_back(*body, pattern, id, e.field_index);
                lemma_put_back_lighter(*body, pattern, id, e.field_index);
                match args[0] {
                    Node::Var(slot) => {
                        lemma_slot_fixed_lighter(back, pattern, slot, Slot::Dropped);
                        match parent {
                            Node::Var(x) => {
                                lemma_slot_fixed_lighter(
                                    back,
                                    pattern,
                                    slot,
                                    Slot::Sets { parent: x, struct_id: id, field: e.field_index },
                                );
                            },
                            _ => {},
                        }
                    },
                    _ => {},
                }
                assert(m.kids()[1].load() <= body.load());
                m.lemma_load_lighter(n);
            },
            _ => {},
        },
        _ => {},
    }
}

/// A binding as it is walked: as a binding of a call on the map where it is one of
/// a call on dynamic fields.
pub open spec fn let_on_map(n: Node, c: Calls, ps: Parents) -> Node {
    match let_replaced(n, c, ps) {
        Some(m) => m,
        None => n,
    }
}

/// The expression with the calls on dynamic fields as calls on typed maps, and the
/// variables that hold an identity behind it.
pub open spec fn calls_rewritten(n: Node, c: Calls, ps: Parents) -> (Node, Parents)
    decreases n.load(), n.kids().len() + 1,
{
    match n {
        Node::Let { .. } => {
            let noted = parents_noted(n, c, ps);
            let m = let_on_map(n, c, noted);
            proof {
                if let_replaced(n, c, noted) is Some {
                    lemma_replaced_lighter(n, c, noted);
                }
            }
            let (ks, after) = kids_rewritten(m, 2, c, noted);
            (m.with_kids(ks), after)
        },
        Node::If { .. } | Node::Match { .. } => {
            let (ks, after) = kids_rewritten(n, n.kids().len(), c, ps);
            (n.with_kids(ks), after)
        },
        Node::Call { .. } => match call_replaced(n, c, ps) {
            Some(m) => (m, ps),
            None => {
                let (ks, after) = kids_rewritten(n, n.kids().len(), c, ps);
                (n.with_kids(ks), after)
            },
        },
        Node::MutableBorrow { .. } => (borrow_of_map(n, c), ps),
        _ => (n, ps),
    }
}

/// The first `k` direct subexpressions with their calls rewritten, one after the
/// other, and the variables that hold an identity behind them.
pub open spec fn kids_rewritten(n: Node, k: nat, c: Calls, ps: Parents) -> (Seq<Node>, Parents)
    decreases n.load(), k,
{
    if k == 0 || k > n.kids().len() || !n.walks() {
        (Seq::empty(), ps)
    } else {
        proof {
            n.lemma_load_kid(k - 1);
        }
        let (before, mid) = kids_rewritten(n, (k - 1) as nat, c, ps);
        let (kid, after) = calls_rewritten(n.kids()[k - 1], c, mid);
        (before.push(kid), after)
    }
}

/// The number of arguments of an operation.
fn arity_of(op: DynFieldOp) -> (r: usize)
    ensures
        r == arity(op),
{
    if op == DynFieldOp::Add {
        3
    } else {
        2
    }
}

impl<'a> CallContext<'a> {
    /// What a function does with dynamic fields.
    fn op_of(&self, f: FunctionID) -> (r: Option<DynFieldOp>)
        ensures
            r == crate::program::lookup(self@.ops, f),
    {
        match slot_of(self.ops, f) {
            Some(i) => Some(self.ops[i].1),
            None => None,
        }
    }

    /// Notes the identity that the variable of a binding holds.
    fn note(&self, n: &IRNode, ps: &mut Vec<(TempId, (StructID, IRNode))>)
        ensures
            parent_views(final(ps)@) == parents_noted(n@, self@, parent_views(old(ps)@)),
    {
        match n {
            IRNode::Let { pattern, value, .. } => {
                assert(crate::ir::names(pattern@).len() == pattern@.len());
                if pattern.len() == 1 {
                    assert(crate::ir::names(pattern@)[0] == pattern@[0]@);
                    match &**value {
                        IRNode::Field { struct_id, field_index, base } => {
                            assert((*value)@ == Node::Field {
                                struct_id: *struct_id,
                                field_index: *field_index,
                                base: Box::new((*base)@),
                            });
                            if *field_index == 0 && entries_in(self.map, *struct_id).is_some() {
                                put_parent(ps, &pattern[0], *struct_id, (**base).clone());
                            }
                        },
                        IRNode::Var(x) => {
                            assert((*value)@ == Node::Var(x@));
                            if let Some((id, parent)) = find_parent(ps, x) {
                                put_parent(ps, &pattern[0], id, parent);
                            }
                        },
                        _ => {},
                    }
                }
            },
            _ => {},
        }
    }

    /// Where a call works.
    fn find_place(
        &self,
        op: DynFieldOp,
        types: &Vec<Type>,
        args: &Vec<IRNode>,
        ps: &Vec<(TempId, (StructID, IRNode))>,
    ) -> (r: Option<(StructID, IRNode, &'a DfFieldEntry)>)
        ensures
            match r {
                Some((id, parent, e)) => call_place(
                    op,
                    Type::views(types@),
                    IRNode::views(args@),
                    self@,
                    parent_views(ps@),
                ) == Some((id, parent@, e@)),
                None => call_place(
                    op,
                    Type::views(types@),
                    IRNode::views(args@),
                    self@,
                    parent_views(ps@),
                ) is None,
            },
    {
        assert(IRNode::views(args@).len() == args@.len());
        if op == DynFieldOp::BorrowMut || args.len() < arity_of(op) {
            return None;
        }
        assert(IRNode::views(args@)[0] == args@[0]@);
        match extract_parent_info_ctx(&args[0], ps) {
            Some((id, parent)) => match lookup_df_entry(self.map, id, types) {
                Some(e) => Some((id, parent, e)),
                None => None,
            },
            None => None,
        }
    }

    /// The call of a function of the map.
    fn make_on_map(
        &self,
        op: DynFieldOp,
        types: &Vec<Type>,
        args: &Vec<IRNode>,
        id: StructID,
        parent: &IRNode,
        e: &DfFieldEntry,
    ) -> (r: IRNode)
        requires
            args@.len() >= arity(op),
        ensures
            r@ == on_map(
                op,
                Type::views(types@),
                IRNode::views(args@),
                self.tm,
                (id, parent@, e@),
            ),
    {
        let n = arity_of(op);
        let read = IRNode::Field {
            struct_id: id,
            field_index: e.field_index,
            base: Box::new(parent.clone()),
        };
        let ghost first = crate::df_borrows::field_of(id, e.field_index, parent@);
        assert(read@ == first);
        let ghost all = IRNode::views(args@);
        assert(all.len() == args@.len());
        let mut out: Vec<IRNode> = Vec::new();
        out.push(read);
        let mut i: usize = 1;
        assert(IRNode::views(out@) =~= seq![first] + all.subrange(1, 1));
        while i < n
            invariant
                1 <= i <= n,
                n <= args@.len(),
                all == IRNode::views(args@),
                all.len() == args@.len(),
                IRNode::views(out@) == seq![first] + all.subrange(1, i as int),
            decreases n - i,
        {
            let ghost before = IRNode::views(out@);
            assert(all[i as int] == args@[i as int]@);
            out.push(args[i].clone());
            assert(IRNode::views(out@) =~= before.push(all[i as int]));
            assert(IRNode::views(out@) =~= seq![first] + all.subrange(1, i + 1));
            i += 1;
        }
        let function = match op {
            DynFieldOp::Add => self.tm.set_id,
            DynFieldOp::Remove => self.tm.erase_id,
            DynFieldOp::RemoveIfExists => self.tm.erase_if_exists_id,
            DynFieldOp::Borrow => self.tm.get_id,
            DynFieldOp::BorrowMut => self.tm.get_id,
            DynFieldOp::Exists => self.tm.has_id,
        };
        IRNode::Call { function, type_args: types_of_map(e, types), args: out }
    }

    /// The call of a function that works on dynamic fields, as a call on the map.
    fn try_rewrite_call(&self, n: &IRNode, ps: &Vec<(TempId, (StructID, IRNode))>) -> (r: Option<
        IRNode,
    >)
        ensures
            crate::substitution::optional_node(r) == call_replaced(
                n@,
                self@,
                parent_views(ps@),
            ),
    {
        match n {
            IRNode::Call { function, type_args, args } => match self.op_of(*function) {
                Some(op) => match self.find_place(op, type_args, args, ps) {
                    Some((id, parent, e)) => {
                        assert(IRNode::views(args@).len() == args@.len());
                        Some(self.make_on_map(op, type_args, args, id, &parent, e))
                    },
                    None => None,
                },
                None => None,
            },
            _ => None,
        }
    }

    /// What follows a call that changes the map.
    fn fix_body(
        &self,
        op: DynFieldOp,
        pattern: &Vec<TempId>,
        first: &IRNode,
        body: &IRNode,
        id: StructID,
        parent: &IRNode,
        e: &DfFieldEntry,
    ) -> (r: IRNode)
        ensures
            r@ == body_on_map(
                op,
                crate::ir::names(pattern@),
                first@,
                body@,
                (id, parent@, e@),
            ),
    {
        match op {
            DynFieldOp::Add => {
                let back = fix_reconstruction(body, pattern, id, e.field_index);
                match first {
                    IRNode::Var(slot) => {
                        let how = match parent {
                            IRNode::Var(x) => SlotFix::Sets {
                                parent: x.clone(),
                                struct_id: id,
                                field: e.field_index,
                            },
                            _ => SlotFix::Dropped,
                        };
                        fix_slot(&back, pattern, slot, &how)
                    },
                    _ => back,
                }
            },
            DynFieldOp::Remove | DynFieldOp::RemoveIfExists => {
                let back = fix_reconstruction(body, pattern, id, e.field_index);
                match first {
                    IRNode::Var(slot) => {
                        let how = SlotFix::Dropped;
                        fix_slot(&back, pattern, slot, &how)
                    },
                    _ => back,
                }
            },
            _ => body.clone(),
        }
    }

    /// The binding of a call on dynamic fields, as a binding of a call on the map.
    fn try_rewrite_dyn_field_call_ctx(
        &self,
        n: &IRNode,
        ps: &Vec<(TempId, (StructID, IRNode))>,
    ) -> (r: Option<IRNode>)
        ensures
            crate::substitution::optional_node(r) == let_replaced(n@, self@, parent_views(ps@)),
    {
        match n {
            IRNode::Let { pattern, value, body } => match &**value {
                IRNode::Call { function, type_args, args } => {
                    assert((*value)@ == Node::Call {
                        function: *function,
                        type_args: Type::views(type_args@),
                        args: IRNode::views(args@),
                    });
                    match self.op_of(*function) {
                        Some(op) => match self.find_place(op, type_args, args, ps) {
                            Some((id, parent, e)) => {
                                assert(IRNode::views(args@).len() == args@.len());
                                assert(IRNode::views(args@)[0] == args@[0]@);
                                let call = self.make_on_map(op, type_args, args, id, &parent, e);
                                let rest = self.fix_body(
                                    op,
                                    pattern,
                                    &args[0],
                                    body,
                                    id,
                                    &parent,
                                    e,
                                );
                                Some(
                                    IRNode::Let {
                                        pattern: clone_names(pattern),
                                        value: Box::new(call),
                                        body: Box::new(rest),
                                    },
                                )
                            },
                            None => None,
                        },
                        None => None,
                    }
                },
                _ => None,
            },
            _ => None,
        }
    }

    /// A mutable borrow of an identity as a borrow of the field that holds the map.
    fn borrow_map(&self, n: &IRNode) -> (r: IRNode)
        ensures
            r@ == borrow_of_map(n@, self@),
    {
        match n {
            IRNode::MutableBorrow { val_expr, reconstruct_param, reconstruct_expr, state_type } => {
                match &**val_expr {
                    IRNode::Field { struct_id, field_index, base } => {
                        assert((*val_expr)@ == Node::Field {
                            struct_id: *struct_id,
                            field_index: *field_index,
                            base: Box::new((*base)@),
                        });
                        match entries_in(self.map, *struct_id) {
                            Some(es) => {
                                let ghost vs = DfFieldEntry::views(es@);
                                assert(vs.len() == es@.len());
                                if *field_index == 0 && es.len() == 1 {
                                    assert(vs[0] == es@[0]@);
                                    let mut xs: Vec<TempId> = Vec::new();
                                    xs.push(reconstruct_param.clone());
                                    assert(crate::ir::names(xs@) =~= seq![reconstruct_param@]);
                                    let read = IRNode::Field {
                                        struct_id: *struct_id,
                                        field_index: es[0].field_index,
                                        base: base.clone(),
                                    };
                                    assert(read@ == Node::Field {
                                        struct_id: *struct_id,
                                        field_index: vs[0].field_index,
                                        base: Box::new((*base)@),
                                    });
                                    let rebuilt = fix_update_field(
                                        reconstruct_expr,
                                        &xs,
                                        *struct_id,
                                        es[0].field_index,
                                    );
                                    return IRNode::MutableBorrow {
                                        val_expr: Box::new(read),
                                        reconstruct_param: reconstruct_param.clone(),
                                        reconstruct_expr: Box::new(rebuilt),
                                        state_type: state_type.clone(),
                                    };
                                }
                            },
                            None => {},
                        }
                    },
                    _ => {},
                }
                n.clone()
            },
            _ => n.clone(),
        }
    }

    /// Rewrites the calls on dynamic fields in each direct subexpression.
    fn rewrite_kids(&self, n: &IRNode, ps: &mut Vec<(TempId, (StructID, IRNode))>) -> (r: IRNode)
        requires
            n@.walks(),
        ensures
            r@ == n@.with_kids(
                kids_rewritten(n@, n@.kids().len(), self@, parent_views(old(ps)@)).0,
            ),
            parent_views(final(ps)@) == kids_rewritten(
                n@,
                n@.kids().len(),
                self@,
                parent_views(old(ps)@),
            ).1,
        decreases n@.load(), 0nat,
    {
        let ghost start = parent_views(ps@);
        let ks = n.children();
        let mut out: Vec<IRNode> = Vec::new();
        let mut i: usize = 0;
        assert(IRNode::views(out@) =~= Seq::empty());
        while i < ks.len()
            invariant
                i <= ks.len(),
                n@.walks(),
                ks@.len() == n@.kids().len(),
                forall|j: int| 0 <= j < ks@.len() ==> (#[trigger] ks@[j])@ == n@.kids()[j],
                (IRNode::views(out@), parent_views(ps@)) == kids_rewritten(
                    n@,
                    i as nat,
                    self@,
                    start,
                ),
                out@.len() == i,
            decreases ks.len() - i,
        {
            assert(ks@[i as int]@ == n@.kids()[i as int]);
            proof {
                n@.lemma_load_kid(i as int);
            }
            let ghost before = out@;
            let kid = self.rewrite_body_ctx(ks[i], ps);
            out.push(kid);
            assert(IRNode::views(out@) =~= IRNode::views(before).push(kid@));
            i += 1;
        }
        n.with_children(out)
    }

    /// Rewrites the calls on dynamic fields.
    fn rewrite_body_ctx(
        &self,
        n: &IRNode,
        ps: &mut Vec<(TempId, (StructID, IRNode))>,
    ) -> (r: IRNode)
        ensures
            (r@, parent_views(final(ps)@)) == calls_rewritten(n@, self@, parent_views(old(ps)@)),
        decreases n@.load(), 1nat,
    {
        match n {
            IRNode::Let { .. } => {
                self.note(n, ps);
                match self.try_rewrite_dyn_field_call_ctx(n, ps) {
                    Some(m) => {
                        proof {
                            lemma_replaced_lighter(n@, self@, parent_views(ps@));
                        }
                        self.rewrite_kids(&m, ps)
                    },
                    None => self.rewrite_kids(n, ps),
                }
            },
            IRNode::If { .. } => self.rewrite_kids(n, ps),
            IRNode::Match { .. } => self.rewrite_kids(n, ps),
            IRNode::Call { .. } => match self.try_rewrite_call(n, ps) {
                Some(m) => m,
                None => self.rewrite_kids(n, ps),
            },
            IRNode::MutableBorrow { .. } => self.borrow_map(n),
            _ => n.clone(),
        }
    }
}

/// The variables that hold an identity at the start of a function: the parameters
/// of a structure that holds dynamic fields stand for it.
pub open spec fn param_parents(ps: Seq<Param>, map: FieldMap) -> Parents
    decreases ps.len(),
{
    if ps.len() == 0 {
        Seq::empty()
    } else {
        let before = param_parents(ps.drop_last(), map);
        let p = ps.last();
        match crate::typed_maps::struct_named(p.param_type) {
            Some((id, _)) => if crate::typed_maps::has_fields(map, id) {
                crate::assoc::put(before, p.name, (id, Node::Var(p.name)))
            } else {
                before
            },
            None => before,
        }
    }
}

/// The variables that hold an identity at the start of a function.
fn seed_parents(
    params: &Vec<Parameter>,
    map: &Vec<(StructID, Vec<DfFieldEntry>)>,
) -> (r: Vec<(TempId, (StructID, IRNode))>)
    ensures
        parent_views(r@) == param_parents(
            Parameter::views(params@),
            crate::typed_maps::map_views(map@),
        ),
{
    let ghost ps = Parameter::views(params@);
    let mut out: Vec<(TempId, (StructID, IRNode))> = Vec::new();
    let mut i: usize = 0;
    assert(ps.subrange(0, 0) =~= Seq::empty());
    assert(parent_views(out@) =~= Seq::empty());
    while i < params.len()
        invariant
            i <= params.len(),
            ps == Parameter::views(params@),
            parent_views(out@) == param_parents(
                ps.subrange(0, i as int),
                crate::typed_maps::map_views(map@),
            ),
        decreases params.len() - i,
    {
        let ghost next = ps.subrange(0, i + 1);
        assert(next.drop_last() =~= ps.subrange(0, i as int));
        assert(next.last() == params@[i as int]@);
        if let Some((id, _args)) = struct_id_of(&params[i].param_type) {
            if entries_in(map, id).is_some() {
                let parent = IRNode::Var(params[i].name.clone());
                put_parent(&mut out, &params[i].name, id, parent);
            }
        }
        i += 1;
    }
    assert(ps.subrange(0, i as int) =~= ps);
    out
}

/// Whether a field of a structure holds dynamic fields.
pub open spec fn is_map_field(map: FieldMap, id: StructID, field: usize) -> bool {
    match crate::program::lookup(map, id) {
        Some(es) => exists|i: int| 0 <= i < es.len() && (#[trigger] es[i]).field_index == field,
        None => false,
    }
}

/// Whether a field of a structure holds dynamic fields.
fn does_hold_map(map: &Vec<(StructID, Vec<DfFieldEntry>)>, id: StructID, field: usize) -> (r: bool)
    ensures
        r == is_map_field(crate::typed_maps::map_views(map@), id, field),
{
    match entries_in(map, id) {
        Some(es) => {
            let ghost vs = DfFieldEntry::views(es@);
            let mut i: usize = 0;
            while i < es.len()
                invariant
                    i <= es.len(),
                    vs == DfFieldEntry::views(es@),
                    crate::program::lookup(crate::typed_maps::map_views(map@), id) == Some(vs),
                    forall|j: int| 0 <= j < i ==> (#[trigger] vs[j]).field_index != field,
                decreases es.len() - i,
            {
                assert(vs[i as int] == es@[i as int]@);
                if es[i].field_index == field {
                    return true;
                }
                i += 1;
            }
            false
        },
        None => false,
    }
}

/// Whether a binding of a changed map is followed by one that puts what it binds
/// back as an identity.
pub open spec fn stale_identity(pattern: Seq<Name>, value: Node, body: Node, map: FieldMap) -> bool {
    match value {
        Node::UpdateField { struct_id, field_index, .. } => match body {
            Node::Let { value: put, .. } => pattern.len() == 1 && is_map_field(
                map,
                struct_id,
                field_index,
            ) && crate::df_borrows::restores_identity(*put, pattern[0], struct_id),
            _ => false,
        },
        _ => false,
    }
}

/// The expression where a binding that puts a variable back as an identity, right
/// behind one that puts a changed map into that variable, hands the variable on.
pub open spec fn identities_settled(n: Node, map: FieldMap) -> Node
    decreases n, 1nat,
{
    match n {
        Node::Let { pattern, value, body } => {
            let v = identities_settled(*value, map);
            let rest = match *body {
                Node::Let { pattern: inner, body: rest, .. } => if stale_identity(
                    pattern,
                    v,
                    *body,
                    map,
                ) {
                    Node::Let {
                        pattern: inner,
                        value: Box::new(Node::Var(pattern[0])),
                        body: Box::new(identities_settled(*rest, map)),
                    }
                } else {
                    identities_settled(*body, map)
                },
                _ => identities_settled(*body, map),
            };
            Node::Let { pattern, value: Box::new(v), body: Box::new(rest) }
        },
        Node::If { .. } | Node::Match { .. } => n.with_kids(settled_kids(n, map)),
        _ => n,
    }
}

/// The direct subexpressions with their identities settled.
pub open spec fn settled_kids(n: Node, map: FieldMap) -> Seq<Node>
    decreases n, 0nat,
{
    proof {
        n.lemma_kids_decrease();
    }
    Seq::new(
        n.kids().len(),
        |i: int|
            if 0 <= i < n.kids().len() {
                identities_settled(n.kids()[i], map)
            } else {
                arbitrary()
            },
    )
}

/// Hands on the variables that would be put back as stale identities.
fn strip_stale_uid_writeback(n: &IRNode, map: &Vec<(StructID, Vec<DfFieldEntry>)>) -> (r: IRNode)
    ensures
        r@ == identities_settled(n@, crate::typed_maps::map_views(map@)),
    decreases n@,
{
    let ghost m = crate::typed_maps::map_views(map@);
    match n {
        IRNode::Let { pattern, value, body } => {
            let ghost ps = crate::ir::names(pattern@);
            assert(ps.len() == pattern@.len());
            let v = strip_stale_uid_writeback(value, map);
            let changed = match &v {
                IRNode::UpdateField { struct_id, field_index, .. } => if pattern.len() == 1
                    && does_hold_map(map, *struct_id, *field_index) {
                    Some(*struct_id)
                } else {
                    None
                },
                _ => None,
            };
            if let Some(id) = changed {
                assert(ps[0] == pattern@[0]@);
                match &**body {
                    IRNode::Let { pattern: inner, value: put, body: rest } => {
                        assert((*body)@ == Node::Let {
                            pattern: crate::ir::names(inner@),
                            value: Box::new((*put)@),
                            body: Box::new((*rest)@),
                        });
                        if crate::df_borrows::does_restore_identity(put, &pattern[0], id) {
                            let after = strip_stale_uid_writeback(rest, map);
                            let again = IRNode::Var(pattern[0].clone());
                            assert(again@ == Node::Var(ps[0]));
                            let next = IRNode::Let {
                                pattern: clone_names(inner),
                                value: Box::new(again),
                                body: Box::new(after),
                            };
                            assert(next@ == Node::Let {
                                pattern: crate::ir::names(inner@),
                                value: Box::new(Node::Var(ps[0])),
                                body: Box::new(after@),
                            });
                            return IRNode::Let {
                                pattern: clone_names(pattern),
                                value: Box::new(v),
                                body: Box::new(next),
                            };
                        }
                    },
                    _ => {},
                }
            }
            assert(!stale_identity(ps, v@, (*body)@, m));
            IRNode::Let {
                pattern: clone_names(pattern),
                value: Box::new(v),
                body: Box::new(strip_stale_uid_writeback(body, map)),
            }
        },
        IRNode::If { .. } | IRNode::Match { .. } => {
            let ks = n.children();
            let mut out: Vec<IRNode> = Vec::new();
            let mut i: usize = 0;
            proof {
                n@.lemma_kids_decrease();
            }
            while i < ks.len()
                invariant
                    i <= ks.len(),
                    out@.len() == i,
                    m == crate::typed_maps::map_views(map@),
                    ks@.len() == n@.kids().len(),
                    forall|j: int| 0 <= j < ks@.len() ==> (#[trigger] ks@[j])@ == n@.kids()[j],
                    forall|j: int|
                        0 <= j < i ==> (#[trigger] out@[j])@ == identities_settled(
                            n@.kids()[j],
                            m,
                        ),
                    forall|j: int| 0 <= j < n@.kids().len() ==> decreases_to!(
                        n@ => #[trigger] n@.kids()[j]
                    ),
                decreases ks.len() - i,
            {
                assert(ks@[i as int]@ == n@.kids()[i as int]);
                out.push(strip_stale_uid_writeback(ks[i], map));
                i += 1;
            }
            assert(IRNode::views(out@) =~= settled_kids(n@, m));
            n.with_children(out)
        },
        _ => n.clone(),
    }
}

/// The functions with what `f` makes of their bodies; native ones stay.
pub open spec fn each_body(fs: Seq<(FunctionID, Func)>, f: spec_fn(Func) -> Node) -> Seq<
    (FunctionID, Func),
> {
    Seq::new(
        fs.len(),
        |i: int|
            (
                fs[i].0,
                if fs[i].1.is_native {
                    fs[i].1
                } else {
                    Func { body: f(fs[i].1), ..fs[i].1 }
                },
            ),
    )
}

/// The function that borrows dynamic fields mutably.
pub open spec fn borrowing(ops: Seq<(FunctionID, DynFieldOp)>) -> Option<FunctionID>
    decreases ops.len(),
{
    if ops.len() == 0 {
        None
    } else {
        match borrowing(ops.drop_last()) {
            Some(id) => Some(id),
            None => if ops.last().1 == DynFieldOp::BorrowMut {
                Some(ops.last().0)
            } else {
                None
            },
        }
    }
}

/// The function that borrows dynamic fields mutably.
fn find_borrowing(ops: &Vec<(FunctionID, DynFieldOp)>) -> (r: Option<FunctionID>)
    ensures
        r == borrowing(ops@),
{
    let mut out: Option<FunctionID> = None;
    let mut i: usize = 0;
    assert(ops@.subrange(0, 0) =~= Seq::empty());
    while i < ops.len()
        invariant
            i <= ops.len(),
            out == borrowing(ops@.subrange(0, i as int)),
        decreases ops.len() - i,
    {
        let ghost next = ops@.subrange(0, i + 1);
        assert(next.drop_last() =~= ops@.subrange(0, i as int));
        if out.is_none() && ops[i].1 == DynFieldOp::BorrowMut {
            out = Some(ops[i].0);
        }
        i += 1;
    }
    assert(ops@.subrange(0, i as int) =~= ops@);
    out
}

/// The program with the mutable borrows of dynamic fields as borrows from typed
/// maps.
pub open spec fn borrows_on_maps(p: Prog) -> Prog {
    match borrowing(crate::typed_maps::dynamic_ops(p)) {
        Some(id) => {
            let q = crate::typed_maps::with_map(p);
            let tm = crate::typed_maps::made_map(p);
            let c = Borrows {
                borrow_mut: id,
                map: crate::typed_maps::field_map(q.structs),
                tm,
            };
            Prog {
                functions: each_body(
                    q.functions,
                    |f: Func| crate::df_borrows::body_borrows(f.body, f.signature.parameters, c),
                ),
                typed_map_functions: Some(tm),
                ..q
            }
        },
        None => p,
    }
}

/// Rewrites the calls that borrow dynamic fields mutably, so that later passes see
/// a borrow from the owner. The typed map is added to the program for it.
pub fn rewrite_df_borrow_mut_pre_threading(program: &mut Program)
    requires
        borrowing(crate::typed_maps::dynamic_ops(old(program)@)) is Some
            ==> crate::typed_maps::has_room(old(program)@),
    ensures
        final(program)@ == borrows_on_maps(old(program)@),
{
    let ghost start = program@;
    let ops = find_dynamic_field_functions(program);
    let id = match find_borrowing(&ops) {
        Some(id) => id,
        None => {
            return;
        },
    };
    let tm = create_typed_map_module(program);
    let map = build_df_field_map(program);
    let c = BorrowContext { borrow_mut: id, map: &map, tm };
    let ghost q = program@;
    let ghost f = |f: Func| crate::df_borrows::body_borrows(f.body, f.signature.parameters, c@);
    let mut i: usize = 0;
    while i < program.functions.len()
        invariant
            i <= program.functions.len(),
            program.functions@.len() == q.functions.len(),
            f == (|f: Func| crate::df_borrows::body_borrows(f.body, f.signature.parameters, c@)),
            program@ == (Prog { functions: program@.functions, ..q }),
            forall|j: int|
                0 <= j < i ==> #[trigger] program@.functions[j] == each_body(q.functions, f)[j],
            forall|j: int|
                i <= j < q.functions.len() ==> #[trigger] program@.functions[j] == q.functions[j],
        decreases program.functions.len() - i,
    {
        let ghost before = program@;
        let ghost old_functions = program.functions@;
        assert(before.functions[i as int] == (
            old_functions[i as int].0,
            old_functions[i as int].1@,
        ));
        if !program.functions[i].1.is_native {
            let body = rewrite_borrow_mut_pre(
                &program.functions[i].1.body,
                &program.functions[i].1.signature.parameters,
                &c,
            );
            program.functions[i].1.body = body;
        }
        assert(program@.functions =~= before.functions.update(
            i as int,
            each_body(q.functions, f)[i as int],
        ));
        i += 1;
    }
    assert(program@.functions =~= each_body(q.functions, f));
    program.typed_map_functions = Some(tm);
}

/// What becomes of the body of a function.
pub open spec fn body_on_maps(f: Func, c: Calls) -> Node {
    identities_settled(
        calls_rewritten(f.body, c, param_parents(f.signature.parameters, c.map)).0,
        c.map,
    )
}

/// Rewrites the body of a function.
fn rewrite_body(f: &Function, c: &CallContext) -> (r: IRNode)
    ensures
        r@ == body_on_maps(f@, c@),
{
    let mut ps = seed_parents(&f.signature.parameters, c.map);
    let body = c.rewrite_body_ctx(&f.body, &mut ps);
    strip_stale_uid_writeback(&body, c.map)
}

/// Whether none of the functions of the map is one that works on dynamic fields.
pub open spec fn map_apart(ops: Seq<(FunctionID, DynFieldOp)>, tm: TypedMapFunctions) -> bool {
    forall|i: int|
        0 <= i < ops.len() ==> (#[trigger] ops[i]).0 != tm.get_id && ops[i].0 != tm.set_id
            && ops[i].0 != tm.erase_id && ops[i].0 != tm.erase_if_exists_id && ops[i].0
            != tm.has_id
}

/// The program and its typed map, which is added where there is none.
pub open spec fn map_of(p: Prog) -> (Prog, TypedMapFunctions) {
    match p.typed_map_functions {
        Some(tm) => (p, tm),
        None => (crate::typed_maps::with_map(p), crate::typed_maps::made_map(p)),
    }
}

/// The program with the calls on dynamic fields as calls on typed maps.
pub open spec fn calls_on_maps(p: Prog) -> Prog {
    let ops = crate::typed_maps::dynamic_ops(p);
    if ops.len() == 0 {
        p
    } else {
        let (q, tm) = map_of(p);
        let c = Calls { ops, map: crate::typed_maps::field_map(q.structs), tm };
        Prog {
            functions: each_body(q.functions, |f: Func| body_on_maps(f, c)),
            typed_map_functions: Some(tm),
            ..q
        }
    }
}

/// Rewrites the calls on dynamic fields to calls on typed maps. The typed map that
/// the program has is used, or one is added.
pub fn rewrite_dynamic_fields(program: &mut Program)
    requires
        match old(program)@.typed_map_functions {
            Some(tm) => map_apart(crate::typed_maps::dynamic_ops(old(program)@), tm),
            None => crate::typed_maps::dynamic_ops(old(program)@).len() > 0
                ==> crate::typed_maps::has_room(old(program)@),
        },
    ensures
        final(program)@ == calls_on_maps(old(program)@),
{
    let ghost start = program@;
    let ops = find_dynamic_field_functions(program);
    if ops.len() == 0 {
        return;
    }
    let tm = match program.typed_map_functions {
        Some(tm) => tm,
        None => create_typed_map_module(program),
    };
    let map = build_df_field_map(program);
    let c = CallContext { ops: &ops, map: &map, tm };
    let ghost q = program@;
    let ghost f = |f: Func| body_on_maps(f, c@);
    let mut i: usize = 0;
    while i < program.functions.len()
        invariant
            i <= program.functions.len(),
            program.functions@.len() == q.functions.len(),
            f == (|f: Func| body_on_maps(f, c@)),
            program@ == (Prog { functions: program@.functions, ..q }),
            forall|j: int|
                0 <= j < i ==> #[trigger] program@.functions[j] == each_body(q.functions, f)[j],
            forall|j: int|
                i <= j < q.functions.len() ==> #[trigger] program@.functions[j] == q.functions[j],
        decreases program.functions.len() - i,
    {
        let ghost before = program@;
        let ghost old_functions = program.functions@;
        assert(before.functions[i as int] == (
            old_functions[i as int].0,
            old_functions[i as int].1@,
        ));
        if !program.functions[i].1.is_native {
            let body = rewrite_body(&program.functions[i].1, &c);
            program.functions[i].1.body = body;
        }
        assert(program@.functions =~= before.functions.update(
            i as int,
            each_body(q.functions, f)[i as int],
        ));
        i += 1;
    }
    assert(program@.functions =~= each_body(q.functions, f));
    program.typed_map_functions = Some(tm);
}

/// The functions that work on dynamic fields are functions of the program.
proof fn lemma_ops_below(fs: Seq<(FunctionID, Func)>, m: usize, i: int)
    requires
        0 <= i < crate::typed_maps::field_ops(fs, m).len(),
    ensures
        crate::typed_maps::field_ops(fs, m)[i].0 < crate::segments::above(fs),
    decreases fs.len(),
{
    if fs.len() > 0 {
        let before = crate::typed_maps::field_ops(fs.drop_last(), m);
        crate::segments::lemma_above(fs, fs.len() - 1);
        if i < before.len() {
            lemma_ops_below(fs.drop_last(), m, i);
        }
    }
}

/// The functions of a typed map that is added to a program are none of those that
/// work on dynamic fields.
pub proof fn law_new_map_is_apart(p: Prog)
    requires
        crate::typed_maps::has_room(p),
    ensures
        map_apart(crate::typed_maps::dynamic_ops(p), crate::typed_maps::made_map(p)),
{
    let ops = crate::typed_maps::dynamic_ops(p);
    assert forall|i: int| 0 <= i < ops.len() implies (#[trigger] ops[i]).0
        < crate::segments::above(p.functions) by {
        let m = crate::typed_maps::field_module(p.modules)->0;
        lemma_ops_below(p.functions, m, i);
    }
}

/// A call on a map is no call on dynamic fields: a binding that was rewritten is
/// not rewritten again, and what it binds holds no identity.
pub proof fn law_rewritten_once(n: Node, c: Calls, ps: Parents, qs: Parents)
    requires
        map_apart(c.ops, c.tm),
        let_replaced(n, c, ps) is Some,
    ensures
        let_replaced(let_replaced(n, c, ps)->0, c, qs) is None,
        parents_noted(let_replaced(n, c, ps)->0, c, qs) == qs,
{
    match n {
        Node::Let { value, .. } => match *value {
            Node::Call { function, .. } => {
                let op = crate::program::lookup(c.ops, function)->0;
                let id = map_call(op, c.tm);
                if crate::program::lookup(c.ops, id) is Some {
                    let i = crate::program::slot(c.ops, id)->0;
                    assert(crate::program::is_slot(c.ops, id, i));
                    assert(c.ops[i].0 == id);
                }
            },
            _ => {},
        },
        _ => {},
    }
}

/// Write-backs to the slot of an identity that were taken out are gone: taking
/// them out again changes nothing.
pub proof fn law_dropped_write_backs_are_gone(n: Node, xs: Seq<Name>, slot: Name)
    ensures
        slot_fixed(slot_fixed(n, xs, slot, Slot::Dropped), xs, slot, Slot::Dropped) == slot_fixed(
            n,
            xs,
            slot,
            Slot::Dropped,
        ),
    decreases n,
{
    match n {
        Node::Let { body, .. } => {
            law_dropped_write_backs_are_gone(*body, xs, slot);
        },
        Node::If { then_branch, else_branch, .. } => {
            law_dropped_write_backs_are_gone(*then_branch, xs, slot);
            law_dropped_write_backs_are_gone(*else_branch, xs, slot);
        },
        _ => {},
    }
}

} // verus!
