//! What is known of the types of variables where an expression may be cut apart.

use crate::assoc::place_of;
use crate::ir::{BinOp, IRNode, Node, UnOp};
use crate::program::{slot_of, Prog, Program};
use crate::scope::VariableRegistry;
use crate::types::{clone_types, FunctionID, Name, TempId, Ty, Type};
use vstd::prelude::*;

verus! {

/// The variables in scope, in the order in which they came, with their types where
/// these are known.
pub type Known = Seq<(Name, Option<Ty>)>;

/// What an executable list of variables holds.
pub open spec fn known_views(s: Seq<(TempId, Option<Type>)>) -> Known {
    Seq::new(s.len(), |i: int| (s[i].0@, crate::scope::optional_ty(s[i].1)))
}

/// Both views have the same names.
pub proof fn lemma_known_keys(s: Seq<(TempId, Option<Type>)>)
    ensures
        crate::assoc::key_views(s) == crate::assoc::keys(known_views(s)),
{
    assert(crate::assoc::key_views(s) =~= crate::assoc::keys(known_views(s)));
}

/// A copy of an optional type.
fn clone_optional_type(t: &Option<Type>) -> (r: Option<Type>)
    ensures
        crate::scope::optional_ty(r) == crate::scope::optional_ty(*t),
{
    match t {
        Some(x) => Some(x.clone()),
        None => None,
    }
}

/// A copy of a list of variables.
pub fn clone_known(s: &Vec<(TempId, Option<Type>)>) -> (r: Vec<(TempId, Option<Type>)>)
    ensures
        known_views(r@) == known_views(s@),
{
    let mut out: Vec<(TempId, Option<Type>)> = Vec::new();
    let mut i: usize = 0;
    while i < s.len()
        invariant
            i <= s.len(),
            out@.len() == i,
            forall|j: int| #![trigger out@[j]]
                0 <= j < i ==> out@[j].0@ == s@[j].0@ && crate::scope::optional_ty(out@[j].1)
                    == crate::scope::optional_ty(s@[j].1),
        decreases s.len() - i,
    {
        out.push((s[i].0.clone(), clone_optional_type(&s[i].1)));
        i += 1;
    }
    assert(known_views(out@) =~= known_views(s@));
    out
}

/// Puts a variable in scope.
pub fn put_known(s: &mut Vec<(TempId, Option<Type>)>, x: &TempId, t: Option<Type>)
    ensures
        known_views(final(s)@) == crate::assoc::put(
            known_views(old(s)@),
            x@,
            crate::scope::optional_ty(t),
        ),
{
    proof {
        lemma_known_keys(s@);
    }
    let ghost before = known_views(s@);
    let ghost value = crate::scope::optional_ty(t);
    match place_of(s, x) {
        Some(i) => {
            s[i] = (x.clone(), t);
            assert(known_views(s@) =~= before.update(i as int, (x@, value)));
        },
        None => {
            s.push((x.clone(), t));
            assert(known_views(s@) =~= before.push((x@, value)));
        },
    }
}

/// The scope with variables of the given types, one after the other.
pub open spec fn put_all(known: Known, xs: Seq<Name>, ts: Seq<Option<Ty>>) -> Known
    decreases xs.len(),
{
    if xs.len() == 0 || xs.len() != ts.len() {
        known
    } else {
        crate::assoc::put(put_all(known, xs.drop_last(), ts.drop_last()), xs.last(), ts.last())
    }
}

/// The types of the parts of a value that a pattern takes apart.
pub open spec fn part_types(n: nat, t: Option<Ty>) -> Seq<Option<Ty>> {
    Seq::new(
        n,
        |i: int|
            match t {
                Some(Ty::Tuple(elems)) => if elems.len() == n {
                    Some(elems[i])
                } else {
                    None
                },
                _ => None,
            },
    )
}

/// The scope behind a binding.
pub open spec fn behind(known: Known, pattern: Seq<Name>, t: Option<Ty>) -> Known {
    if pattern.len() == 1 {
        crate::assoc::put(known, pattern[0], t)
    } else {
        put_all(known, pattern, part_types(pattern.len(), t))
    }
}

/// Puts the variables of a pattern in scope.
pub fn register_pattern(
    known: &mut Vec<(TempId, Option<Type>)>,
    pattern: &Vec<TempId>,
    t: &Option<Type>,
)
    ensures
        known_views(final(known)@) == behind(
            known_views(old(known)@),
            crate::ir::names(pattern@),
            crate::scope::optional_ty(*t),
        ),
{
    let ghost ps = crate::ir::names(pattern@);
    let ghost ty = crate::scope::optional_ty(*t);
    let ghost start = known_views(known@);
    let ghost parts = part_types(ps.len(), ty);
    assert(ps.len() == pattern@.len());
    if pattern.len() == 1 {
        assert(ps[0] == pattern@[0]@);
        put_known(known, &pattern[0], clone_optional_type(t));
        return ;
    }
    let mut i: usize = 0;
    assert(ps.subrange(0, 0) =~= Seq::empty());
    while i < pattern.len()
        invariant
            i <= pattern.len(),
            ps == crate::ir::names(pattern@),
            ps.len() == pattern@.len(),
            ty == crate::scope::optional_ty(*t),
            parts == part_types(ps.len(), ty),
            known_views(known@) == put_all(
                start,
                ps.subrange(0, i as int),
                parts.subrange(0, i as int),
            ),
        decreases pattern.len() - i,
    {
        let ghost next = ps.subrange(0, i + 1);
        let ghost next_parts = parts.subrange(0, i + 1);
        assert(next.drop_last() =~= ps.subrange(0, i as int));
        assert(next_parts.drop_last() =~= parts.subrange(0, i as int));
        assert(next.last() == pattern@[i as int]@);
        assert(next_parts.last() == parts[i as int]);
        let part: Option<Type> = match t {
            Some(Type::Tuple(elems)) => {
                assert(Type::views(elems@).len() == elems@.len());
                if elems.len() == pattern.len() {
                    assert(Type::views(elems@)[i as int] == elems@[i as int]@);
                    Some(elems[i].clone())
                } else {
                    None
                }
            },
            _ => None,
        };
        assert(crate::scope::optional_ty(part) == parts[i as int]);
        put_known(known, &pattern[i], part);
        i += 1;
    }
    assert(ps.subrange(0, i as int) =~= ps);
    assert(parts.subrange(0, i as int) =~= parts);
}

/// What a function returns: what it declares, or, where that holds a mutable
/// reference, what its body has.
pub open spec fn concrete_return(p: Prog, id: FunctionID) -> Option<Ty> {
    if !p.has(id) {
        None
    } else {
        let f = p.func(id);
        if !f.signature.return_type.has_mutable_ref() || f.is_native {
            Some(f.signature.return_type)
        } else {
            crate::scope::type_of(
                f.body,
                crate::scope::param_vars(f.signature.parameters),
                p,
            )
        }
    }
}

/// What a function returns.
fn concrete_callee_return_type(program: &Program, id: FunctionID) -> (r: Option<Type>)
    ensures
        crate::scope::optional_ty(r) == concrete_return(program@, id),
{
    match program.function_slot(id) {
        Some(k) => {
            let f = &program.functions[k].1;
            if !f.signature.return_type.contains_mutable_ref() || f.is_native {
                return Some(f.signature.return_type.clone());
            }
            let reg = VariableRegistry::of_params(program, &f.signature.parameters);
            f.body.get_type(&reg)
        },
        None => None,
    }
}

/// The type of a field of a structure whose own type may be known.
pub open spec fn known_field_type(
    p: Prog,
    struct_id: usize,
    field_index: usize,
    base: Option<Ty>,
) -> Option<Ty> {
    if !p.has_struct(struct_id) || field_index >= p.structure(struct_id).fields.len() {
        None
    } else {
        let s = p.structure(struct_id);
        let t = s.fields[field_index as int].field_type;
        match base {
            Some(Ty::Struct { type_args, .. }) => if type_args.len() > 0 {
                Some(t.instantiated(type_args))
            } else if s.type_params.len() == 0 {
                Some(t)
            } else {
                None
            },
            _ => if s.type_params.len() == 0 {
                Some(t)
            } else {
                None
            },
        }
    }
}

/// The type of a field of a structure whose own type may be known.
fn field_type_of(program: &Program, struct_id: usize, field_index: usize, base: &Option<Type>) -> (r:
    Option<Type>)
    ensures
        crate::scope::optional_ty(r) == known_field_type(
            program@,
            struct_id,
            field_index,
            crate::scope::optional_ty(*base),
        ),
{
    proof {
        crate::program::lemma_same_slots(program.structs@, program@.structs, struct_id);
    }
    match slot_of(&program.structs, struct_id) {
        Some(k) => {
            let s = &program.structs[k].1;
            assert(program@.structure(struct_id) == s@);
            assert(s@.fields.len() == s.fields@.len());
            assert(s@.type_params.len() == s.type_params@.len());
            if field_index >= s.fields.len() {
                return None;
            }
            let t = &s.fields[field_index].field_type;
            assert(s@.fields[field_index as int].field_type == t@);
            match base {
                Some(Type::Struct { type_args, .. }) => {
                    assert(Type::views(type_args@).len() == type_args@.len());
                    if type_args.len() > 0 {
                        return Some(t.substitute_type_params(type_args));
                    }
                },
                _ => {},
            }
            if s.type_params.len() == 0 {
                Some(t.clone())
            } else {
                None
            }
        },
        None => None,
    }
}

/// The type of an expression, where it can be told.
pub open spec fn told_type(n: Node, known: Known, p: Prog) -> Option<Ty>
    decreases n,
{
    match n {
        Node::Var(x) => match crate::assoc::found(known, x) {
            Some(t) => t,
            None => None,
        },
        Node::Const(c) => Some(crate::scope::lit_type(c)),
        Node::BinOp { op, lhs, .. } => match op {
            BinOp::Lt => Some(Ty::Bool),
            BinOp::Le => Some(Ty::Bool),
            BinOp::Gt => Some(Ty::Bool),
            BinOp::Ge => Some(Ty::Bool),
            BinOp::Eq => Some(Ty::Bool),
            BinOp::Neq => Some(Ty::Bool),
            BinOp::And => Some(Ty::Bool),
            BinOp::Or => Some(Ty::Bool),
            _ => told_type(*lhs, known, p),
        },
        Node::UnOp { op, operand } => match op {
            UnOp::Cast(bits) => Some(Ty::UInt(bits)),
            UnOp::Not => Some(Ty::Bool),
            UnOp::BitNot => told_type(*operand, known, p),
        },
        Node::ArithOverflowCheck { .. } => Some(Ty::Bool),
        Node::ToBool(_) => Some(Ty::Bool),
        Node::ToProp(_) => Some(Ty::Prop),
        Node::MoveAbortValue { .. } => Some(Ty::MoveAbort),
        Node::OptionSome(inner) => match told_type(*inner, known, p) {
            Some(t) => Some(Ty::Option(Box::new(t))),
            None => None,
        },
        Node::Call { function, type_args, .. } => match concrete_return(p, function) {
            Some(t) => Some(
                if type_args.len() == 0 {
                    t
                } else {
                    t.instantiated(type_args)
                },
            ),
            None => None,
        },
        Node::Pack { struct_id, type_args, .. } => Some(Ty::Struct { struct_id, type_args }),
        Node::Field { struct_id, field_index, base } => known_field_type(
            p,
            struct_id,
            field_index,
            told_type(*base, known, p),
        ),
        Node::UpdateField { base, .. } => told_type(*base, known, p),
        Node::UpdateVec { base, .. } => told_type(*base, known, p),
        Node::If { then_branch, .. } => told_type(*then_branch, known, p),
        Node::Tuple(elems) => match told_types(elems, known, p) {
            Some(ts) => Some(Ty::Tuple(ts)),
            None => None,
        },
        Node::Let { pattern, value, body } => told_type(
            *body,
            behind(known, pattern, told_type(*value, known, p)),
            p,
        ),
        _ => None,
    }
}

/// The types of the expressions, where all can be told.
pub open spec fn told_types(s: Seq<Node>, known: Known, p: Prog) -> Option<Seq<Ty>>
    decreases s,
{
    if exists|i: int| 0 <= i < s.len() && told_type(#[trigger] s[i], known, p) is None {
        None
    } else {
        Some(
            Seq::new(
                s.len(),
                |i: int|
                    if 0 <= i < s.len() {
                        told_type(s[i], known, p)->0
                    } else {
                        arbitrary()
                    },
            ),
        )
    }
}

/// The type of an expression, where it can be told.
pub fn try_type(node: &IRNode, known: &Vec<(TempId, Option<Type>)>, program: &Program) -> (r: Option<
    Type,
>)
    ensures
        crate::scope::optional_ty(r) == told_type(node@, known_views(known@), program@),
    decreases node,
{
    match node {
        IRNode::Var(x) => {
            proof {
                lemma_known_keys(known@);
            }
            match place_of(known, x) {
                Some(i) => {
                    assert(known_views(known@)[i as int].1 == crate::scope::optional_ty(
                        known@[i as int].1,
                    ));
                    clone_optional_type(&known[i].1)
                },
                None => None,
            }
        },
        IRNode::Const(c) => Some(crate::scope::const_type(c)),
        IRNode::BinOp { op, lhs, .. } => match op {
            BinOp::Lt
            | BinOp::Le
            | BinOp::Gt
            | BinOp::Ge
            | BinOp::Eq
            | BinOp::Neq
            | BinOp::And
            | BinOp::Or => Some(Type::Bool),
            _ => try_type(lhs, known, program),
        },
        IRNode::UnOp { op, operand } => match op {
            UnOp::Cast(bits) => Some(Type::UInt(*bits)),
            UnOp::Not => Some(Type::Bool),
            UnOp::BitNot => try_type(operand, known, program),
        },
        IRNode::ArithOverflowCheck { .. } => Some(Type::Bool),
        IRNode::ToBool(_) => Some(Type::Bool),
        IRNode::ToProp(_) => Some(Type::Prop),
        IRNode::MoveAbortValue { .. } => Some(Type::MoveAbort),
        IRNode::OptionSome(inner) => match try_type(inner, known, program) {
            Some(t) => Some(Type::Option(Box::new(t))),
            None => None,
        },
        IRNode::Call { function, type_args, .. } => {
            assert(Type::views(type_args@).len() == type_args@.len());
            match concrete_callee_return_type(program, *function) {
                Some(t) => if type_args.len() == 0 {
                    Some(t)
                } else {
                    Some(t.substitute_type_params(type_args))
                },
                None => None,
            }
        },
        IRNode::Pack { struct_id, type_args, .. } => Some(
            Type::Struct { struct_id: *struct_id, type_args: clone_types(type_args) },
        ),
        IRNode::Field { struct_id, field_index, base } => {
            let b = try_type(base, known, program);
            field_type_of(program, *struct_id, *field_index, &b)
        },
        IRNode::UpdateField { base, .. } => try_type(base, known, program),
        IRNode::UpdateVec { base, .. } => try_type(base, known, program),
        IRNode::If { then_branch, .. } => try_type(then_branch, known, program),
        IRNode::Tuple(elems) => match try_types(elems, known, program) {
            Some(ts) => Some(Type::Tuple(ts)),
            None => None,
        },
        IRNode::Let { pattern, value, body } => {
            let mut inner = clone_known(known);
            let t = try_type(value, known, program);
            register_pattern(&mut inner, pattern, &t);
            try_type(body, &inner, program)
        },
        _ => None,
    }
}

/// The types of the expressions, where all can be told.
fn try_types(elems: &Vec<IRNode>, known: &Vec<(TempId, Option<Type>)>, program: &Program) -> (r:
    Option<Vec<Type>>)
    ensures
        match r {
            Some(ts) => told_types(IRNode::views(elems@), known_views(known@), program@) == Some(
                Type::views(ts@),
            ),
            None => told_types(IRNode::views(elems@), known_views(known@), program@) is None,
        },
    decreases elems,
{
    let ghost s = IRNode::views(elems@);
    let ghost kv = known_views(known@);
    assert(s.len() == elems@.len());
    let mut out: Vec<Type> = Vec::new();
    let mut i: usize = 0;
    while i < elems.len()
        invariant
            i <= elems.len(),
            s == IRNode::views(elems@),
            s.len() == elems@.len(),
            kv == known_views(known@),
            out@.len() == i,
            forall|j: int|
                0 <= j < i ==> told_type(#[trigger] s[j], kv, program@) == Some(out@[j]@),
        decreases elems.len() - i,
    {
        assert(s[i as int] == elems@[i as int]@);
        match try_type(&elems[i], known, program) {
            Some(t) => {
                out.push(t);
            },
            None => {
                assert(told_type(s[i as int], kv, program@) is None);
                return None;
            },
        }
        i += 1;
    }
    assert(Type::views(out@) =~= told_types(s, kv, program@)->0) by {
        assert forall|j: int| 0 <= j < s.len() implies told_type(
            #[trigger] s[j],
            kv,
            program@,
        ) is Some by {}
    }
    Some(out)
}

} // verus!
