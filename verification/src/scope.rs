//! The types of variables and of expressions.

use crate::ir::{BinOp, Const, IRNode, Lit, Node, UnOp};
use crate::program::{FieldDef, Parameter, Prog, Program, Struct, Variant};
use crate::types::{clone_types, Name, StructID, TempId, Ty, Type};
use vstd::prelude::*;

verus! {

/// The variables in scope with their types; a later one hides an earlier one of
/// the same name.
pub type Vars = Seq<(Name, Ty)>;

/// The type of a variable in scope.
pub open spec fn var_type(vars: Vars, x: Name) -> Option<Ty>
    decreases vars.len(),
{
    if vars.len() == 0 {
        None
    } else if vars.last().0 == x {
        Some(vars.last().1)
    } else {
        var_type(vars.drop_last(), x)
    }
}

/// The names paired with types, as far as there are both.
pub open spec fn paired(xs: Seq<Name>, ts: Seq<Ty>) -> Vars {
    Seq::new(
        if xs.len() < ts.len() {
            xs.len()
        } else {
            ts.len()
        },
        |i: int| (xs[i], ts[i]),
    )
}

/// The scope with the names of a pattern bound to a value of the type: one name
/// to the value itself, several to the components of a tuple.
pub open spec fn bound(vars: Vars, pattern: Seq<Name>, t: Option<Ty>) -> Vars {
    match t {
        None => vars,
        Some(ty) => if pattern.len() == 1 {
            vars.push((pattern[0], ty))
        } else {
            match ty {
                Ty::Tuple(ts) => vars + paired(pattern, ts),
                _ => vars,
            }
        },
    }
}

/// The scope with the parameters of a function.
pub open spec fn param_vars(params: Seq<crate::program::Param>) -> Vars {
    Seq::new(params.len(), |i: int| (params[i].ssa_value, params[i].param_type))
}

/// The types of the fields.
pub open spec fn field_types(fields: Seq<crate::program::FieldOf>) -> Seq<Ty> {
    Seq::new(fields.len(), |i: int| fields[i].field_type)
}

/// The fields of the variant with the tag.
pub open spec fn variant_fields(
    vs: Seq<crate::program::VariantOf>,
    tag: usize,
) -> Option<Seq<crate::program::FieldOf>>
    decreases vs.len(),
{
    if vs.len() == 0 {
        None
    } else if vs[0].tag == tag {
        Some(vs[0].fields)
    } else {
        variant_fields(vs.subrange(1, vs.len() as int), tag)
    }
}

/// The scope inside a case of a match on a value of the type.
pub open spec fn case_vars(
    p: Prog,
    vars: Vars,
    scrutinee: Option<Ty>,
    tag: usize,
    bindings: Seq<Name>,
) -> Vars {
    match scrutinee {
        Some(t) => match t.target() {
            Ty::Struct { struct_id, type_args } => if p.has_struct(struct_id) {
                match p.structure(struct_id).variants {
                    Some(vs) => match variant_fields(vs, tag) {
                        Some(fields) => vars + paired(
                            bindings,
                            Ty::all_instantiated(field_types(fields), type_args),
                        ),
                        None => vars,
                    },
                    None => vars,
                }
            } else {
                vars
            },
            _ => vars,
        },
        None => vars,
    }
}

/// The type of a literal.
pub open spec fn lit_type(c: Lit) -> Ty {
    match c {
        Lit::Bool(_) => Ty::Bool,
        Lit::UInt { bits, .. } => Ty::UInt(bits as u32),
        Lit::Address(_) => Ty::Address,
        Lit::Vector { elem_type, .. } => Ty::Vector(Box::new(elem_type)),
    }
}

/// The type of a field of a structure, for the arguments that the type of the
/// value gives it.
pub open spec fn field_type(p: Prog, struct_id: StructID, index: usize, base: Option<Ty>) -> Option<
    Ty,
> {
    if p.has_struct(struct_id) && index < p.structure(struct_id).fields.len() {
        let declared = p.structure(struct_id).fields[index as int].field_type;
        match base {
            Some(t) => match t.target() {
                Ty::Struct { type_args, .. } => Some(declared.instantiated(type_args)),
                _ => Some(declared),
            },
            None => Some(declared),
        }
    } else {
        None
    }
}

/// The type of an expression, where its shape and the scope tell it.
pub open spec fn type_of(n: Node, vars: Vars, p: Prog) -> Option<Ty>
    decreases n,
{
    match n {
        Node::Var(x) => var_type(vars, x),
        Node::Const(c) => Some(lit_type(c)),
        Node::BinOp { op, lhs, .. } => match op {
            BinOp::And => Some(Ty::Bool),
            BinOp::Or => Some(Ty::Bool),
            BinOp::Eq => Some(Ty::Bool),
            BinOp::Neq => Some(Ty::Bool),
            BinOp::Lt => Some(Ty::Bool),
            BinOp::Le => Some(Ty::Bool),
            BinOp::Gt => Some(Ty::Bool),
            BinOp::Ge => Some(Ty::Bool),
            _ => type_of(*lhs, vars, p),
        },
        Node::UnOp { op, operand } => match op {
            UnOp::Not => Some(Ty::Bool),
            UnOp::BitNot => type_of(*operand, vars, p),
            UnOp::Cast(bits) => Some(Ty::UInt(bits)),
        },
        Node::Call { function, type_args, .. } => if p.has(function) {
            Some(p.func(function).signature.return_type.instantiated(type_args))
        } else {
            None
        },
        Node::Pack { struct_id, type_args, .. } => Some(Ty::Struct { struct_id, type_args }),
        Node::Field { struct_id, field_index, base } => field_type(
            p,
            struct_id,
            field_index,
            type_of(*base, vars, p),
        ),
        Node::Tuple(elems) => match types_of(elems, vars, p) {
            Some(ts) => Some(Ty::Tuple(ts)),
            None => None,
        },
        Node::Let { pattern, value, body } => type_of(
            *body,
            bound(vars, pattern, type_of(*value, vars, p)),
            p,
        ),
        Node::If { then_branch, .. } => type_of(*then_branch, vars, p),
        Node::MatchOption { none_branch, .. } => type_of(*none_branch, vars, p),
        Node::UpdateField { base, .. } => type_of(*base, vars, p),
        Node::UpdateVec { base, .. } => type_of(*base, vars, p),
        Node::ReadRef(x) => match type_of(*x, vars, p) {
            Some(t) => Some(t.target()),
            None => None,
        },
        Node::WriteRef { .. } => Some(Ty::unit()),
        Node::WriteBack { .. } => Some(Ty::unit()),
        Node::MutableBorrow { val_expr, state_type, .. } => match type_of(*val_expr, vars, p) {
            Some(t) => Some(Ty::MutableReference(Box::new(t), Box::new(state_type))),
            None => None,
        },
        Node::Quantifier { .. } => Some(Ty::Prop),
        Node::ToProp(_) => Some(Ty::Prop),
        Node::ToBool(_) => Some(Ty::Bool),
        Node::OptionSome(x) => match type_of(*x, vars, p) {
            Some(t) => Some(Ty::Option(Box::new(t))),
            None => None,
        },
        Node::MoveAbortValue { .. } => Some(Ty::MoveAbort),
        Node::ArithOverflowCheck { .. } => Some(Ty::Bool),
        _ => None,
    }
}

/// The types of the expressions, where each has one.
pub open spec fn types_of(s: Seq<Node>, vars: Vars, p: Prog) -> Option<Seq<Ty>>
    decreases s,
{
    if forall|i: int| 0 <= i < s.len() ==> type_of(#[trigger] s[i], vars, p) is Some {
        Some(
            Seq::new(
                s.len(),
                |i: int|
                    if 0 <= i < s.len() {
                        type_of(s[i], vars, p)->0
                    } else {
                        arbitrary()
                    },
            ),
        )
    } else {
        None
    }
}

/// The variables in scope, with the program that the types belong to.
pub struct VariableRegistry<'a> {
    pub program: &'a Program,
    pub vars: Vec<(TempId, Type)>,
}

/// What a list of typed names holds.
pub open spec fn var_views(s: Seq<(TempId, Type)>) -> Vars {
    Seq::new(s.len(), |i: int| (s[i].0@, s[i].1@))
}

/// What an optional type holds.
pub open spec fn optional_ty(t: Option<Type>) -> Option<Ty> {
    match t {
        Some(x) => Some(x@),
        None => None,
    }
}

impl<'a> VariableRegistry<'a> {
    /// The variables in scope with their types.
    pub open spec fn view(&self) -> Vars {
        var_views(self.vars@)
    }

    /// A scope of the program without variables.
    pub fn new(program: &'a Program) -> (r: VariableRegistry<'a>)
        ensures
            r@ == Seq::<(Name, Ty)>::empty(),
            *r.program == *program,
    {
        let r = VariableRegistry { program, vars: Vec::new() };
        assert(r@ =~= Seq::<(Name, Ty)>::empty());
        r
    }

    /// A copy of the scope.
    pub fn copy(&self) -> (r: VariableRegistry<'a>)
        ensures
            r@ == self@,
            *r.program == *self.program,
    {
        let mut vars: Vec<(TempId, Type)> = Vec::new();
        let mut i: usize = 0;
        while i < self.vars.len()
            invariant
                i <= self.vars.len(),
                vars@.len() == i,
                forall|j: int| #![trigger vars@[j]]
                    0 <= j < i ==> vars@[j].0@ == self.vars@[j].0@ && vars@[j].1@
                        == self.vars@[j].1@,
            decreases self.vars.len() - i,
        {
            vars.push((self.vars[i].0.clone(), self.vars[i].1.clone()));
            i += 1;
        }
        let r = VariableRegistry { program: self.program, vars };
        assert(r@ =~= self@);
        r
    }

    /// Adds a variable to the scope.
    pub fn register(&mut self, name: TempId, t: Type)
        ensures
            final(self)@ == old(self)@.push((name@, t@)),
            *final(self).program == *old(self).program,
    {
        let ghost before = self@;
        self.vars.push((name, t));
        assert(self@ =~= before.push((name@, t@)));
    }

    /// Binds the names of a pattern to a value of the type.
    pub fn register_pattern(&mut self, pattern: &Vec<TempId>, t: Option<Type>)
        ensures
            final(self)@ == bound(old(self)@, crate::ir::names(pattern@), optional_ty(t)),
            *final(self).program == *old(self).program,
    {
        assert(crate::ir::names(pattern@).len() == pattern@.len());
        match t {
            None => {},
            Some(ty) => {
                if pattern.len() == 1 {
                    self.register(pattern[0].clone(), ty);
                } else {
                    match ty {
                        Type::Tuple(ts) => {
                            self.register_all(pattern, &ts);
                        },
                        _ => {},
                    }
                }
            },
        }
    }

    /// Adds the names, paired with types, to the scope.
    pub fn register_all(&mut self, xs: &Vec<TempId>, ts: &Vec<Type>)
        ensures
            final(self)@ == old(self)@ + paired(crate::ir::names(xs@), Type::views(ts@)),
            *final(self).program == *old(self).program,
    {
        let ghost start = self@;
        let ghost all = paired(crate::ir::names(xs@), Type::views(ts@));
        let mut i: usize = 0;
        assert(start + all.subrange(0, 0) =~= start);
        while i < xs.len() && i < ts.len()
            invariant
                i <= xs.len(),
                i <= ts.len(),
                all == paired(crate::ir::names(xs@), Type::views(ts@)),
                self@ == start + all.subrange(0, i as int),
                *self.program == *old(self).program,
            decreases xs.len() - i,
        {
            self.register(xs[i].clone(), ts[i].clone());
            assert(all.subrange(0, i + 1) =~= all.subrange(0, i as int).push(all[i as int]));
            assert(self@ =~= start + all.subrange(0, i + 1));
            i += 1;
        }
        assert(all.subrange(0, i as int) =~= all);
    }

    /// The type of a variable in scope.
    pub fn get_type(&self, x: &TempId) -> (r: Option<Type>)
        ensures
            optional_ty(r) == var_type(self@, x@),
    {
        let mut i: usize = self.vars.len();
        assert(self@.subrange(0, i as int) =~= self@);
        while i > 0
            invariant
                i <= self.vars.len(),
                var_type(self@, x@) == var_type(self@.subrange(0, i as int), x@),
            decreases i,
        {
            proof {
                let s = self@.subrange(0, i as int);
                assert(s.drop_last() =~= self@.subrange(0, i - 1));
                assert(s.last() == self@[i - 1]);
            }
            i -= 1;
            if self.vars[i].0 == *x {
                return Some(self.vars[i].1.clone());
            }
        }
        None
    }

    /// Whether a variable is in scope.
    pub fn contains(&self, x: &TempId) -> (r: bool)
        ensures
            r == (var_type(self@, x@) is Some),
    {
        self.get_type(x).is_some()
    }

    /// The scope with the parameters of a function.
    pub fn of_params(program: &'a Program, params: &Vec<Parameter>) -> (r: VariableRegistry<'a>)
        ensures
            r@ == param_vars(Parameter::views(params@)),
            *r.program == *program,
    {
        let mut r = VariableRegistry::new(program);
        let mut i: usize = 0;
        while i < params.len()
            invariant
                i <= params.len(),
                r@.len() == i,
                *r.program == *program,
                forall|j: int| 0 <= j < i ==> #[trigger] r@[j] == (
                    params@[j].ssa_value@,
                    params@[j].param_type@,
                ),
            decreases params.len() - i,
        {
            r.register(params[i].ssa_value.clone(), params[i].param_type.clone());
            i += 1;
        }
        assert(r@ =~= param_vars(Parameter::views(params@)));
        r
    }

    /// The scope inside a case of a match on a value of the type.
    pub fn case_scope(
        &self,
        scrutinee: &Option<Type>,
        tag: usize,
        bindings: &Vec<TempId>,
    ) -> (r: VariableRegistry<'a>)
        ensures
            r@ == case_vars(
                self.program@,
                self@,
                optional_ty(*scrutinee),
                tag,
                crate::ir::names(bindings@),
            ),
            *r.program == *self.program,
    {
        let mut r = self.copy();
        if let Some(t) = scrutinee {
            let target = t.deref();
            if let Type::Struct { struct_id, type_args } = &target {
                proof {
                    crate::program::lemma_same_slots(
                        self.program.structs@,
                        self.program@.structs,
                        *struct_id,
                    );
                }
                if let Some(k) = crate::program::slot_of(&self.program.structs, *struct_id) {
                    let s = &self.program.structs[k].1;
                    assert(s@ == self.program@.structure(*struct_id));
                    if let Some(vs) = &s.variants {
                        if let Some(fields) = find_variant(vs, tag) {
                            let ts = instantiate_fields(fields, type_args);
                            r.register_all(bindings, &ts);
                        }
                    }
                }
            }
        }
        r
    }
}

/// The fields of the variant with the tag.
fn find_variant<'a>(vs: &'a Vec<Variant>, tag: usize) -> (r: Option<&'a Vec<FieldDef>>)
    ensures
        match r {
            Some(fields) => variant_fields(Variant::views(vs@), tag) == Some(
                FieldDef::views(fields@),
            ),
            None => variant_fields(Variant::views(vs@), tag) is None,
        },
{
    let ghost all = Variant::views(vs@);
    let mut i: usize = 0;
    assert(all.subrange(0, all.len() as int) =~= all);
    while i < vs.len()
        invariant
            i <= vs.len(),
            all == Variant::views(vs@),
            variant_fields(all, tag) == variant_fields(
                all.subrange(i as int, all.len() as int),
                tag,
            ),
        decreases vs.len() - i,
    {
        proof {
            let rest = all.subrange(i as int, all.len() as int);
            assert(rest[0] == vs@[i as int]@);
            assert(rest.subrange(1, rest.len() as int) =~= all.subrange(
                i + 1,
                all.len() as int,
            ));
        }
        if vs[i].tag == tag {
            return Some(&vs[i].fields);
        }
        i += 1;
    }
    None
}

/// The types of the fields, with the type parameters replaced.
fn instantiate_fields(fields: &Vec<FieldDef>, args: &Vec<Type>) -> (r: Vec<Type>)
    ensures
        Type::views(r@) == Ty::all_instantiated(
            field_types(FieldDef::views(fields@)),
            Type::views(args@),
        ),
{
    let mut out: Vec<Type> = Vec::new();
    let mut i: usize = 0;
    while i < fields.len()
        invariant
            i <= fields.len(),
            out@.len() == i,
            forall|j: int| 0 <= j < i ==> (#[trigger] out@[j])@
                == fields@[j].field_type@.instantiated(Type::views(args@)),
        decreases fields.len() - i,
    {
        out.push(fields[i].field_type.substitute_type_params(args));
        i += 1;
    }
    assert(Type::views(out@) =~= Ty::all_instantiated(
        field_types(FieldDef::views(fields@)),
        Type::views(args@),
    ));
    out
}

/// The type of a literal.
pub fn const_type(c: &Const) -> (r: Type)
    ensures
        r@ == lit_type(c@),
{
    match c {
        Const::Bool(_) => Type::Bool,
        Const::UInt { bits, .. } => Type::UInt(*bits as u32),
        Const::Address(_) => Type::Address,
        Const::Vector { elem_type, .. } => Type::Vector(Box::new(elem_type.clone())),
    }
}

/// The type of a field of a structure.
fn get_field_type(
    program: &Program,
    struct_id: StructID,
    index: usize,
    base: &Option<Type>,
) -> (r: Option<Type>)
    ensures
        optional_ty(r) == field_type(program@, struct_id, index, optional_ty(*base)),
{
    proof {
        crate::program::lemma_same_slots(program.structs@, program@.structs, struct_id);
    }
    match crate::program::slot_of(&program.structs, struct_id) {
        Some(k) => {
            let s = &program.structs[k].1;
            assert(s@ == program@.structure(struct_id));
            if index < s.fields.len() {
                let declared = &s.fields[index].field_type;
                match base {
                    Some(t) => match t.deref() {
                        Type::Struct { type_args, .. } => Some(
                            declared.substitute_type_params(&type_args),
                        ),
                        _ => Some(declared.clone()),
                    },
                    None => Some(declared.clone()),
                }
            } else {
                None
            }
        },
        None => None,
    }
}

impl IRNode {
    /// The type of the expression, where its shape and the scope tell it.
    pub fn get_type(&self, reg: &VariableRegistry) -> (r: Option<Type>)
        ensures
            optional_ty(r) == type_of(self@, reg@, reg.program@),
        decreases self,
    {
        match self {
            IRNode::Var(x) => reg.get_type(x),
            IRNode::Const(c) => Some(const_type(c)),
            IRNode::BinOp { op, lhs, .. } => match op {
                BinOp::And => Some(Type::Bool),
                BinOp::Or => Some(Type::Bool),
                BinOp::Eq => Some(Type::Bool),
                BinOp::Neq => Some(Type::Bool),
                BinOp::Lt => Some(Type::Bool),
                BinOp::Le => Some(Type::Bool),
                BinOp::Gt => Some(Type::Bool),
                BinOp::Ge => Some(Type::Bool),
                _ => lhs.get_type(reg),
            },
            IRNode::UnOp { op, operand } => match op {
                UnOp::Not => Some(Type::Bool),
                UnOp::BitNot => operand.get_type(reg),
                UnOp::Cast(bits) => Some(Type::UInt(*bits)),
            },
            IRNode::Call { function, type_args, .. } => match reg.program.function_slot(*function) {
                Some(k) => Some(
                    reg.program.functions[k].1.signature.return_type.substitute_type_params(
                        type_args,
                    ),
                ),
                None => None,
            },
            IRNode::Pack { struct_id, type_args, .. } => Some(
                Type::Struct { struct_id: *struct_id, type_args: clone_types(type_args) },
            ),
            IRNode::Field { struct_id, field_index, base } => {
                let t = base.get_type(reg);
                get_field_type(reg.program, *struct_id, *field_index, &t)
            },
            IRNode::Tuple(elems) => match get_types(elems, reg) {
                Some(ts) => Some(Type::Tuple(ts)),
                None => None,
            },
            IRNode::Let { pattern, value, body } => {
                let t = value.get_type(reg);
                let mut inner = reg.copy();
                inner.register_pattern(pattern, t);
                body.get_type(&inner)
            },
            IRNode::If { then_branch, .. } => then_branch.get_type(reg),
            IRNode::MatchOption { none_branch, .. } => none_branch.get_type(reg),
            IRNode::UpdateField { base, .. } => base.get_type(reg),
            IRNode::UpdateVec { base, .. } => base.get_type(reg),
            IRNode::ReadRef(x) => match x.get_type(reg) {
                Some(t) => Some(t.deref()),
                None => None,
            },
            IRNode::WriteRef { .. } => Some(Type::unit()),
            IRNode::WriteBack { .. } => Some(Type::unit()),
            IRNode::MutableBorrow { val_expr, state_type, .. } => match val_expr.get_type(reg) {
                Some(t) => Some(
                    Type::MutableReference(Box::new(t), Box::new(state_type.clone())),
                ),
                None => None,
            },
            IRNode::Quantifier { .. } => Some(Type::Prop),
            IRNode::ToProp(_) => Some(Type::Prop),
            IRNode::ToBool(_) => Some(Type::Bool),
            IRNode::OptionSome(x) => match x.get_type(reg) {
                Some(t) => Some(Type::Option(Box::new(t))),
                None => None,
            },
            IRNode::MoveAbortValue { .. } => Some(Type::MoveAbort),
            IRNode::ArithOverflowCheck { .. } => Some(Type::Bool),
            _ => None,
        }
    }
}

/// The types of the expressions, where each has one.
fn get_types(elems: &Vec<IRNode>, reg: &VariableRegistry) -> (r: Option<Vec<Type>>)
    ensures
        match r {
            Some(ts) => types_of(IRNode::views(elems@), reg@, reg.program@) == Some(
                Type::views(ts@),
            ),
            None => types_of(IRNode::views(elems@), reg@, reg.program@) is None,
        },
    decreases elems,
{
    let ghost all = IRNode::views(elems@);
    let mut out: Vec<Type> = Vec::new();
    let mut i: usize = 0;
    while i < elems.len()
        invariant
            i <= elems.len(),
            all == IRNode::views(elems@),
            out@.len() == i,
            forall|j: int| 0 <= j < i ==> type_of(#[trigger] all[j], reg@, reg.program@) == Some(
                out@[j]@,
            ),
        decreases elems.len() - i,
    {
        assert(all[i as int] == elems@[i as int]@);
        match elems[i].get_type(reg) {
            Some(t) => {
                out.push(t);
            },
            None => {
                assert(type_of(all[i as int], reg@, reg.program@) is None);
                return None;
            },
        }
        i += 1;
    }
    proof {
        let goal = types_of(all, reg@, reg.program@);
        assert(goal is Some);
        assert(goal->0 =~= Type::views(out@));
    }
    Some(out)
}

} // verus!
