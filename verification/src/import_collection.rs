//! Which modules a module has to import: those of the structures and functions
//! that its own structures and functions mention.

use crate::ir::{Const, IRNode, Lit, Node, WriteBackEdge};
use crate::program::{
    slot_of, FieldDef, FieldOf, Func, Function, Module, ModuleOf, Param, Parameter, Prog, Program,
    Struct, StructOf, Variant, VariantOf,
};
use crate::text::{ends_in, to_lower};
use crate::traverse::{calls_function, contains_id};
use crate::types::{FunctionID, ModuleID, StructID, Ty, Type};
use vstd::prelude::*;

verus! {

impl Ty {
    /// Whether the type mentions the structure.
    pub open spec fn names(self, id: StructID) -> bool
        decreases self,
    {
        match self {
            Ty::Vector(t) => t.names(id),
            Ty::Tuple(ts) => Ty::some_names(ts, id),
            Ty::Struct { struct_id, type_args } => struct_id == id || Ty::some_names(type_args, id),
            Ty::Reference(t) => t.names(id),
            Ty::MutableReference(a, b) => a.names(id) || b.names(id),
            Ty::Option(t) => t.names(id),
            _ => false,
        }
    }

    /// Whether one of the types mentions the structure.
    pub open spec fn some_names(s: Seq<Ty>, id: StructID) -> bool
        decreases s,
    {
        exists|i: int| 0 <= i < s.len() && (#[trigger] s[i]).names(id)
    }
}

/// Adds an identifier to a list, unless it is there already.
pub fn push_id(out: &mut Vec<usize>, id: usize)
    ensures
        forall|x: usize| #[trigger]
            final(out)@.contains(x) <==> old(out)@.contains(x) || x == id,
        old(out)@.no_duplicates() ==> final(out)@.no_duplicates(),
{
    if contains_id(out, id) {
        return;
    }
    let ghost before = out@;
    out.push(id);
    assert forall|x: usize| #[trigger] out@.contains(x) <==> before.contains(x) || x == id by {
        if before.contains(x) {
            let k = choose|k: int| 0 <= k < before.len() && before[k] == x;
            assert(out@[k] == x);
        }
        if x == id {
            assert(out@[before.len() as int] == id);
        }
    }
}

/// Adds the structures that a type mentions.
fn add_type(t: &Type, out: &mut Vec<StructID>)
    ensures
        forall|x: StructID| #[trigger]
            final(out)@.contains(x) <==> old(out)@.contains(x) || t@.names(x),
    decreases t,
{
    match t {
        Type::Vector(t) => add_type(t, out),
        Type::Tuple(ts) => add_types(ts, out),
        Type::Struct { struct_id, type_args } => {
            push_id(out, *struct_id);
            add_types(type_args, out);
        },
        Type::Reference(t) => add_type(t, out),
        Type::MutableReference(a, b) => {
            add_type(a, out);
            add_type(b, out);
        },
        Type::Option(t) => add_type(t, out),
        _ => {},
    }
}

/// Adds the structures that some types mention.
fn add_types(ts: &Vec<Type>, out: &mut Vec<StructID>)
    ensures
        forall|x: StructID| #[trigger]
            final(out)@.contains(x) <==> old(out)@.contains(x) || Ty::some_names(
                Type::views(ts@),
                x,
            ),
    decreases ts,
{
    let ghost start = out@;
    let ghost vs = Type::views(ts@);
    let mut i: usize = 0;
    while i < ts.len()
        invariant
            i <= ts.len(),
            vs == Type::views(ts@),
            forall|x: StructID| #[trigger]
                out@.contains(x) <==> start.contains(x) || exists|j: int|
                    0 <= j < i && (#[trigger] vs[j]).names(x),
        decreases ts.len() - i,
    {
        assert(vs[i as int] == ts@[i as int]@);
        let ghost before = out@;
        add_type(&ts[i], out);
        assert forall|x: StructID| #[trigger]
            out@.contains(x) <==> start.contains(x) || exists|j: int|
                0 <= j < i + 1 && (#[trigger] vs[j]).names(x) by {
            assert(out@.contains(x) <==> before.contains(x) || vs[i as int].names(x));
        }
        i += 1;
    }
}

impl Lit {
    /// Whether a type in the literal mentions the structure.
    pub open spec fn names(self, id: StructID) -> bool
        decreases self,
    {
        match self {
            Lit::Vector { elem_type, elems } => elem_type.names(id) || Lit::some_names(elems, id),
            _ => false,
        }
    }

    /// Whether a type in one of the literals mentions the structure.
    pub open spec fn some_names(s: Seq<Lit>, id: StructID) -> bool
        decreases s,
    {
        exists|i: int| 0 <= i < s.len() && (#[trigger] s[i]).names(id)
    }
}

/// Adds the structures that a type in a literal mentions.
fn add_const(c: &Const, out: &mut Vec<StructID>)
    ensures
        forall|x: StructID| #[trigger]
            final(out)@.contains(x) <==> old(out)@.contains(x) || c@.names(x),
    decreases c,
{
    match c {
        Const::Vector { elem_type, elems } => {
            add_type(elem_type, out);
            add_consts(elems, out);
        },
        _ => {},
    }
}

/// Adds the structures that a type in one of some literals mentions.
fn add_consts(cs: &Vec<Const>, out: &mut Vec<StructID>)
    ensures
        forall|x: StructID| #[trigger]
            final(out)@.contains(x) <==> old(out)@.contains(x) || Lit::some_names(
                Const::views(cs@),
                x,
            ),
    decreases cs,
{
    let ghost start = out@;
    let ghost vs = Const::views(cs@);
    let mut i: usize = 0;
    while i < cs.len()
        invariant
            i <= cs.len(),
            vs == Const::views(cs@),
            forall|x: StructID| #[trigger]
                out@.contains(x) <==> start.contains(x) || exists|j: int|
                    0 <= j < i && (#[trigger] vs[j]).names(x),
        decreases cs.len() - i,
    {
        assert(vs[i as int] == cs@[i as int]@);
        let ghost before = out@;
        add_const(&cs[i], out);
        assert forall|x: StructID| #[trigger]
            out@.contains(x) <==> start.contains(x) || exists|j: int|
                0 <= j < i + 1 && (#[trigger] vs[j]).names(x) by {
            assert(out@.contains(x) <==> before.contains(x) || vs[i as int].names(x));
        }
        i += 1;
    }
}

impl Node {
    /// Whether the expression itself, apart from its subexpressions, mentions the
    /// structure: by its identifier or in a type.
    pub open spec fn names_here(self, id: StructID) -> bool {
        match self {
            Node::Const(c) => c.names(id),
            Node::Call { type_args, .. } => Ty::some_names(type_args, id),
            Node::Pack { struct_id, type_args, .. } => struct_id == id || Ty::some_names(
                type_args,
                id,
            ),
            Node::Field { struct_id, .. } => struct_id == id,
            Node::Unpack { struct_id, .. } => struct_id == id,
            Node::UpdateField { struct_id, .. } => struct_id == id,
            Node::MutableBorrow { state_type, .. } => state_type.names(id),
            Node::WriteBack { edge: WriteBackEdge::Field { struct_id, .. }, .. } => struct_id == id,
            Node::Quantifier { binding_type, .. } => binding_type.names(id),
            _ => false,
        }
    }

    /// Whether the structure is mentioned anywhere in the expression.
    pub open spec fn names(self, id: StructID) -> bool {
        self.any(|n: Node| n.names_here(id))
    }
}

/// Adds the structures that the expression itself mentions.
fn add_here(n: &IRNode, out: &mut Vec<StructID>)
    ensures
        forall|x: StructID| #[trigger]
            final(out)@.contains(x) <==> old(out)@.contains(x) || n@.names_here(x),
{
    match n {
        IRNode::Const(c) => add_const(c, out),
        IRNode::Call { type_args, .. } => add_types(type_args, out),
        IRNode::Pack { struct_id, type_args, .. } => {
            push_id(out, *struct_id);
            add_types(type_args, out);
        },
        IRNode::Field { struct_id, .. } => push_id(out, *struct_id),
        IRNode::Unpack { struct_id, .. } => push_id(out, *struct_id),
        IRNode::UpdateField { struct_id, .. } => push_id(out, *struct_id),
        IRNode::MutableBorrow { state_type, .. } => add_type(state_type, out),
        IRNode::WriteBack { edge, .. } => match edge {
            WriteBackEdge::Field { struct_id, .. } => push_id(out, *struct_id),
            WriteBackEdge::Direct => {},
        },
        IRNode::Quantifier { binding_type, .. } => add_type(binding_type, out),
        _ => {},
    }
}

/// Adds the structures that are mentioned anywhere in the expression.
fn add_structs(n: &IRNode, out: &mut Vec<StructID>)
    ensures
        forall|x: StructID| #[trigger]
            final(out)@.contains(x) <==> old(out)@.contains(x) || n@.names(x),
    decreases n@,
{
    let ghost start = out@;
    add_here(n, out);
    let ks = n.children();
    let mut i: usize = 0;
    proof {
        n@.lemma_kids_decrease();
    }
    while i < ks.len()
        invariant
            i <= ks.len(),
            ks@.len() == n@.kids().len(),
            forall|j: int| 0 <= j < ks@.len() ==> (#[trigger] ks@[j])@ == n@.kids()[j],
            forall|x: StructID| #[trigger]
                out@.contains(x) <==> start.contains(x) || n@.names_here(x) || exists|j: int|
                    0 <= j < i && (#[trigger] n@.kids()[j]).names(x),
            forall|j: int| 0 <= j < n@.kids().len() ==> decreases_to!(
                n@ => #[trigger] n@.kids()[j]
            ),
        decreases ks.len() - i,
    {
        assert(ks@[i as int]@ == n@.kids()[i as int]);
        let ghost before = out@;
        add_structs(ks[i], out);
        assert forall|x: StructID| #[trigger]
            out@.contains(x) <==> start.contains(x) || n@.names_here(x) || exists|j: int|
                0 <= j < i + 1 && (#[trigger] n@.kids()[j]).names(x) by {
            assert(out@.contains(x) <==> before.contains(x) || n@.kids()[i as int].names(x));
        }
        i += 1;
    }
    assert forall|x: StructID| #[trigger] out@.contains(x) <==> start.contains(x) || n@.names(
        x,
    ) by {
        let p = |m: Node| m.names_here(x);
        assert(n@.names(x) == n@.any(p));
        assert(forall|j: int| 0 <= j < n@.kids().len() ==> (#[trigger] n@.kids()[j]).names(x)
            == n@.kids()[j].any(p));
        if n@.names_here(x) {
            assert(p(n@));
        }
        if exists|j: int| 0 <= j < i && (#[trigger] n@.kids()[j]).names(x) {
            let j = choose|j: int| 0 <= j < i && (#[trigger] n@.kids()[j]).names(x);
            assert(n@.kids()[j].any(p));
            assert(n@.any_kid(p));
        }
        if n@.any(p) && !p(n@) {
            assert(n@.any_kid(p));
            let j = choose|j: int| 0 <= j < n@.kids().len() && (#[trigger] n@.kids()[j]).any(p);
            assert(n@.kids()[j].names(x));
        }
    }
}

/// Whether the type of one of the fields mentions the structure.
pub open spec fn fields_name(fs: Seq<FieldOf>, id: StructID) -> bool {
    exists|i: int| 0 <= i < fs.len() && (#[trigger] fs[i]).field_type.names(id)
}

/// Whether the type of a field of one of the variants mentions the structure.
pub open spec fn variants_name(vs: Seq<VariantOf>, id: StructID) -> bool {
    exists|i: int| 0 <= i < vs.len() && fields_name((#[trigger] vs[i]).fields, id)
}

/// Whether a structure mentions another, or itself, in the type of a field.
pub open spec fn struct_names(s: StructOf, id: StructID) -> bool {
    fields_name(s.fields, id) || match s.variants {
        Some(vs) => variants_name(vs, id),
        None => false,
    }
}

/// Adds the structures that the types of fields mention.
fn add_fields(fs: &Vec<FieldDef>, out: &mut Vec<StructID>)
    ensures
        forall|x: StructID| #[trigger]
            final(out)@.contains(x) <==> old(out)@.contains(x) || fields_name(
                FieldDef::views(fs@),
                x,
            ),
{
    let ghost start = out@;
    let ghost vs = FieldDef::views(fs@);
    let mut i: usize = 0;
    while i < fs.len()
        invariant
            i <= fs.len(),
            vs == FieldDef::views(fs@),
            forall|x: StructID| #[trigger]
                out@.contains(x) <==> start.contains(x) || exists|j: int|
                    0 <= j < i && (#[trigger] vs[j]).field_type.names(x),
        decreases fs.len() - i,
    {
        assert(vs[i as int] == fs@[i as int]@);
        let ghost before = out@;
        add_type(&fs[i].field_type, out);
        assert forall|x: StructID| #[trigger]
            out@.contains(x) <==> start.contains(x) || exists|j: int|
                0 <= j < i + 1 && (#[trigger] vs[j]).field_type.names(x) by {
            assert(out@.contains(x) <==> before.contains(x) || vs[i as int].field_type.names(x));
        }
        i += 1;
    }
}

/// Adds the structures that the types of the fields of variants mention.
fn add_variants(vars: &Vec<Variant>, out: &mut Vec<StructID>)
    ensures
        forall|x: StructID| #[trigger]
            final(out)@.contains(x) <==> old(out)@.contains(x) || variants_name(
                Variant::views(vars@),
                x,
            ),
{
    let ghost start = out@;
    let ghost vs = Variant::views(vars@);
    let mut i: usize = 0;
    while i < vars.len()
        invariant
            i <= vars.len(),
            vs == Variant::views(vars@),
            forall|x: StructID| #[trigger]
                out@.contains(x) <==> start.contains(x) || exists|j: int|
                    0 <= j < i && fields_name((#[trigger] vs[j]).fields, x),
        decreases vars.len() - i,
    {
        assert(vs[i as int] == vars@[i as int]@);
        let ghost before = out@;
        add_fields(&vars[i].fields, out);
        assert forall|x: StructID| #[trigger]
            out@.contains(x) <==> start.contains(x) || exists|j: int|
                0 <= j < i + 1 && fields_name((#[trigger] vs[j]).fields, x) by {
            assert(out@.contains(x) <==> before.contains(x) || fields_name(
                vs[i as int].fields,
                x,
            ));
        }
        i += 1;
    }
}

/// The structures that a structure mentions, each once.
pub fn struct_dependencies(s: &Struct) -> (r: Vec<StructID>)
    ensures
        forall|x: StructID| #[trigger] r@.contains(x) <==> struct_names(s@, x),
{
    let mut out: Vec<StructID> = Vec::new();
    add_fields(&s.fields, &mut out);
    if let Some(vs) = &s.variants {
        add_variants(vs, &mut out);
    }
    out
}

/// Whether the type of one of the parameters mentions the structure.
pub open spec fn params_name(ps: Seq<Param>, id: StructID) -> bool {
    exists|i: int| 0 <= i < ps.len() && (#[trigger] ps[i]).param_type.names(id)
}

/// Whether a function mentions the structure: in the type of a parameter or of the
/// result, or in its body.
pub open spec fn function_names(f: Func, id: StructID) -> bool {
    params_name(f.signature.parameters, id) || f.signature.return_type.names(id) || f.body.names(
        id,
    )
}

/// Adds the structures that the types of parameters mention.
fn add_params(ps: &Vec<Parameter>, out: &mut Vec<StructID>)
    ensures
        forall|x: StructID| #[trigger]
            final(out)@.contains(x) <==> old(out)@.contains(x) || params_name(
                Parameter::views(ps@),
                x,
            ),
{
    let ghost start = out@;
    let ghost vs = Parameter::views(ps@);
    let mut i: usize = 0;
    while i < ps.len()
        invariant
            i <= ps.len(),
            vs == Parameter::views(ps@),
            forall|x: StructID| #[trigger]
                out@.contains(x) <==> start.contains(x) || exists|j: int|
                    0 <= j < i && (#[trigger] vs[j]).param_type.names(x),
        decreases ps.len() - i,
    {
        assert(vs[i as int] == ps@[i as int]@);
        let ghost before = out@;
        add_type(&ps[i].param_type, out);
        assert forall|x: StructID| #[trigger]
            out@.contains(x) <==> start.contains(x) || exists|j: int|
                0 <= j < i + 1 && (#[trigger] vs[j]).param_type.names(x) by {
            assert(out@.contains(x) <==> before.contains(x) || vs[i as int].param_type.names(x));
        }
        i += 1;
    }
}

/// Whether the structure is one of the program, in the module.
pub open spec fn struct_in(p: Prog, id: StructID, m: ModuleID) -> bool {
    p.has_struct(id) && p.structure(id).module_id == m
}

/// Whether the function is one of the program, in the module.
pub open spec fn function_in(p: Prog, id: FunctionID, m: ModuleID) -> bool {
    p.has(id) && p.func(id).module_id == m
}

/// Whether a function needs the module: it mentions a structure or calls a function
/// of it.
pub open spec fn function_needs(p: Prog, f: Func, m: ModuleID) -> bool {
    (exists|id: StructID| function_names(f, id) && #[trigger] struct_in(p, id, m)) || (exists|
        id: FunctionID,
    | f.body.calls(id) && #[trigger] function_in(p, id, m))
}

/// Whether a structure needs the module: it mentions a structure of it.
pub open spec fn struct_needs(p: Prog, s: StructOf, m: ModuleID) -> bool {
    exists|id: StructID| struct_names(s, id) && #[trigger] struct_in(p, id, m)
}

/// Whether a structure of the first module needs the second.
pub open spec fn some_struct_needs(p: Prog, from: ModuleID, to: ModuleID) -> bool {
    exists|k: int|
        0 <= k < p.structs.len() && (#[trigger] p.structs[k]).1.module_id == from && struct_needs(
            p,
            p.structs[k].1,
            to,
        )
}

/// Whether a function of the first module needs the second.
pub open spec fn some_function_needs(p: Prog, from: ModuleID, to: ModuleID) -> bool {
    exists|k: int|
        0 <= k < p.functions.len() && (#[trigger] p.functions[k]).1.module_id == from
            && function_needs(p, p.functions[k].1, to)
}

/// Whether one of the structures is one of the module.
fn any_struct_in(program: &Program, ids: &Vec<StructID>, m: ModuleID) -> (r: bool)
    ensures
        r == exists|id: StructID| ids@.contains(id) && #[trigger] struct_in(program@, id, m),
{
    let ghost p = program@;
    let mut i: usize = 0;
    while i < ids.len()
        invariant
            i <= ids.len(),
            p == program@,
            forall|j: int| 0 <= j < i ==> !struct_in(p, #[trigger] ids@[j], m),
        decreases ids.len() - i,
    {
        let id = ids[i];
        proof {
            crate::program::lemma_same_slots(program.structs@, p.structs, id);
        }
        if slot_of(&program.structs, id).is_some() && program.structure(id).module_id == m {
            assert(ids@.contains(id) && struct_in(p, id, m));
            return true;
        }
        i += 1;
    }
    assert forall|id: StructID| ids@.contains(id) implies !#[trigger] struct_in(p, id, m) by {
        let j = choose|j: int| 0 <= j < ids@.len() && ids@[j] == id;
        assert(!struct_in(p, ids@[j], m));
    }
    false
}

/// Whether the expression calls a function of the module.
fn calls_into(program: &Program, n: &IRNode, m: ModuleID) -> (r: bool)
    ensures
        r == exists|id: FunctionID| n@.calls(id) && #[trigger] function_in(program@, id, m),
{
    let ghost p = program@;
    let mut i: usize = 0;
    while i < program.functions.len()
        invariant
            i <= program.functions.len(),
            p == program@,
            forall|j: int|
                0 <= j < i ==> !(n@.calls((#[trigger] p.functions[j]).0) && function_in(
                    p,
                    p.functions[j].0,
                    m,
                )),
        decreases program.functions.len() - i,
    {
        let id = program.functions[i].0;
        assert(p.functions[i as int].0 == id);
        proof {
            crate::program::lemma_slot_exists(p.functions, id, i as int);
        }
        if program.function(id).module_id == m && calls_function(n, id) {
            assert(n@.calls(id) && function_in(p, id, m));
            return true;
        }
        i += 1;
    }
    assert forall|id: FunctionID| n@.calls(id) implies !#[trigger] function_in(p, id, m) by {
        if function_in(p, id, m) {
            let k = crate::program::slot(p.functions, id)->0;
            assert(crate::program::is_slot(p.functions, id, k));
            assert(p.functions[k].0 == id);
        }
    }
    false
}

/// Whether a function needs the module.
fn does_function_need(program: &Program, f: &Function, m: ModuleID) -> (r: bool)
    ensures
        r == function_needs(program@, f@, m),
{
    let mut ids: Vec<StructID> = Vec::new();
    add_params(&f.signature.parameters, &mut ids);
    add_type(&f.signature.return_type, &mut ids);
    add_structs(&f.body, &mut ids);
    assert(forall|x: StructID| #[trigger] ids@.contains(x) <==> function_names(f@, x));
    let a = any_struct_in(program, &ids, m);
    assert(a == exists|id: StructID|
        function_names(f@, id) && #[trigger] struct_in(program@, id, m)) by {
        if a {
            let id = choose|id: StructID|
                ids@.contains(id) && #[trigger] struct_in(program@, id, m);
            assert(function_names(f@, id) && struct_in(program@, id, m));
        } else {
            assert forall|id: StructID| function_names(f@, id) implies !#[trigger] struct_in(
                program@,
                id,
                m,
            ) by {
                assert(ids@.contains(id));
            }
        }
    }
    a || calls_into(program, &f.body, m)
}

/// Whether a structure needs the module.
fn does_struct_need(program: &Program, s: &Struct, m: ModuleID) -> (r: bool)
    ensures
        r == struct_needs(program@, s@, m),
{
    let ids = struct_dependencies(s);
    let a = any_struct_in(program, &ids, m);
    if a {
        let ghost id = choose|id: StructID|
            ids@.contains(id) && #[trigger] struct_in(program@, id, m);
        assert(struct_names(s@, id) && struct_in(program@, id, m));
    } else {
        assert forall|id: StructID| struct_names(s@, id) implies !#[trigger] struct_in(
            program@,
            id,
            m,
        ) by {
            assert(ids@.contains(id));
        }
    }
    a
}

/// Whether the first module needs the second.
fn does_need(program: &Program, from: ModuleID, to: ModuleID) -> (r: bool)
    ensures
        r == (some_struct_needs(program@, from, to) || some_function_needs(program@, from, to)),
{
    let ghost p = program@;
    let mut i: usize = 0;
    while i < program.structs.len()
        invariant
            i <= program.structs.len(),
            p == program@,
            forall|j: int|
                0 <= j < i ==> !((#[trigger] p.structs[j]).1.module_id == from && struct_needs(
                    p,
                    p.structs[j].1,
                    to,
                )),
        decreases program.structs.len() - i,
    {
        assert(p.structs[i as int] == (program.structs@[i as int].0, program.structs@[
            i as int
        ].1@));
        if program.structs[i].1.module_id == from && does_struct_need(
            program,
            &program.structs[i].1,
            to,
        ) {
            return true;
        }
        i += 1;
    }
    assert(!some_struct_needs(p, from, to));
    let mut k: usize = 0;
    while k < program.functions.len()
        invariant
            k <= program.functions.len(),
            p == program@,
            forall|j: int|
                0 <= j < k ==> !((#[trigger] p.functions[j]).1.module_id == from
                    && function_needs(p, p.functions[j].1, to)),
        decreases program.functions.len() - k,
    {
        assert(p.functions[k as int] == (
            program.functions@[k as int].0,
            program.functions@[k as int].1@,
        ));
        if program.functions[k].1.module_id == from && does_function_need(
            program,
            &program.functions[k].1,
            to,
        ) {
            return true;
        }
        k += 1;
    }
    assert(!some_function_needs(p, from, to));
    false
}

/// Whether a name of a package, in lower case, is that of a package of
/// specifications.
pub fn is_spec_name(lower: &str) -> (r: bool)
    ensures
        r == crate::text::ends(lower@, "specs"@),
{
    ends_in(lower, "specs")
}

/// Whether the package is one of specifications.
pub open spec fn is_spec_package_name(name: Seq<char>) -> bool {
    crate::text::ends(crate::text::lowercase(name), "specs"@)
}

/// Whether the package is one of specifications.
fn is_spec_package(name: &str) -> (r: bool)
    ensures
        r == is_spec_package_name(name@),
{
    is_spec_name(&to_lower(name))
}

/// Whether the module is only there for the renderer: that of the typed map or
/// that of the world.
pub open spec fn is_synthetic(p: Prog, m: ModuleID) -> bool {
    (p.typed_map_functions matches Some(t) && t.module_id == m) || (
    p.world_functions matches Some(w) && w.module_id == m)
}

/// Whether the second module holds the specifications of the first: they have the
/// same name, and only the package of the second is one of specifications.
pub open spec fn is_spec_twin(a: ModuleOf, b: ModuleOf) -> bool {
    a.name == b.name && a.package_name != b.package_name && !is_spec_package_name(a.package_name)
        && is_spec_package_name(b.package_name)
}

/// Whether the first module imports the second: it needs it, and the second is
/// another module of the program that stands in a file of its own.
pub open spec fn imports(p: Prog, from: ModuleID, to: ModuleID) -> bool {
    (some_struct_needs(p, from, to) || some_function_needs(p, from, to)) && from != to
        && !is_synthetic(p, to) && p.has_module(to) && !is_spec_twin(p.module(from), p.module(to))
}

/// Whether the second module holds the specifications of the first.
fn has_spec_twin(a: &Module, b: &Module) -> (r: bool)
    ensures
        r == is_spec_twin(a@, b@),
{
    a.name == b.name && a.package_name != b.package_name && !is_spec_package(&a.package_name)
        && is_spec_package(&b.package_name)
}

/// The modules that a module imports, each once.
fn collect_module_imports(program: &Program, m: ModuleID) -> (r: Vec<ModuleID>)
    requires
        program@.has_module(m),
    ensures
        r@.no_duplicates(),
        forall|d: ModuleID| #[trigger] r@.contains(d) <==> imports(program@, m, d),
{
    let ghost p = program@;
    let mut out: Vec<ModuleID> = Vec::new();
    let mut i: usize = 0;
    while i < program.modules.len()
        invariant
            i <= program.modules.len(),
            p == program@,
            p.has_module(m),
            out@.no_duplicates(),
            forall|d: ModuleID| #[trigger]
                out@.contains(d) <==> imports(p, m, d) && exists|j: int|
                    0 <= j < i && (#[trigger] p.modules[j]).0 == d,
        decreases program.modules.len() - i,
    {
        let d = program.modules[i].0;
        assert(p.modules[i as int].0 == d);
        proof {
            crate::program::lemma_slot_exists(p.modules, d, i as int);
        }
        let ghost before = out@;
        let synthetic = match program.typed_map_functions {
            Some(t) => t.module_id == d,
            None => false,
        } || match program.world_functions {
            Some(w) => w.module_id == d,
            None => false,
        };
        assert(synthetic == is_synthetic(p, d));
        if d != m && !synthetic && !has_spec_twin(program.module(m), program.module(d))
            && does_need(program, m, d) {
            push_id(&mut out, d);
        }
        assert forall|x: ModuleID| #[trigger]
            out@.contains(x) <==> imports(p, m, x) && exists|j: int|
                0 <= j < i + 1 && (#[trigger] p.modules[j]).0 == x by {
            assert(before.contains(x) <==> imports(p, m, x) && exists|j: int|
                0 <= j < i && (#[trigger] p.modules[j]).0 == x);
            assert(out@.contains(x) <==> before.contains(x) || (x == d && imports(p, m, d)));
        }
        i += 1;
    }
    assert forall|d: ModuleID| #[trigger] out@.contains(d) <==> imports(p, m, d) by {
        if imports(p, m, d) {
            let k = crate::program::slot(p.modules, d)->0;
            assert(crate::program::is_slot(p.modules, d, k));
            assert(p.modules[k].0 == d);
        }
    }
    out
}

/// Whether a list holds the modules that a module imports, each once.
pub open spec fn lists_imports(p: Prog, m: ModuleID, ids: Seq<ModuleID>) -> bool {
    ids.no_duplicates() && forall|d: ModuleID| #[trigger] ids.contains(d) <==> imports(p, m, d)
}

/// Whether the second program is the first with the imports of each module noted.
pub open spec fn imports_noted(p: Prog, q: Prog) -> bool {
    &&& q == (Prog { modules: q.modules, ..p })
    &&& q.modules.len() == p.modules.len()
    &&& forall|i: int| #![trigger q.modules[i]]
        0 <= i < p.modules.len() ==> q.modules[i].0 == p.modules[i].0 && q.modules[i].1
            == (ModuleOf { required_imports: q.modules[i].1.required_imports, ..p.modules[i].1 })
            && lists_imports(p, p.modules[i].0, q.modules[i].1.required_imports)
}

/// Notes for each module which modules it imports.
pub fn collect_imports(program: &mut Program)
    ensures
        imports_noted(old(program)@, final(program)@),
{
    let ghost p = program@;
    let mut lists: Vec<Vec<ModuleID>> = Vec::new();
    let mut i: usize = 0;
    while i < program.modules.len()
        invariant
            i <= program.modules.len(),
            program@ == p,
            lists@.len() == i,
            forall|j: int| #![trigger lists@[j]]
                0 <= j < i ==> lists_imports(p, p.modules[j].0, lists@[j]@),
        decreases program.modules.len() - i,
    {
        let m = program.modules[i].0;
        assert(p.modules[i as int].0 == m);
        proof {
            crate::program::lemma_slot_exists(p.modules, m, i as int);
        }
        lists.push(collect_module_imports(program, m));
        i += 1;
    }
    while lists.len() > 0
        invariant
            lists@.len() <= p.modules.len(),
            program.modules@.len() == p.modules.len(),
            program@ == (Prog { modules: program@.modules, ..p }),
            forall|j: int| #![trigger lists@[j]]
                0 <= j < lists@.len() ==> lists_imports(p, p.modules[j].0, lists@[j]@),
            forall|j: int| #![trigger program@.modules[j]]
                0 <= j < lists@.len() ==> program@.modules[j] == p.modules[j],
            forall|j: int| #![trigger program@.modules[j]]
                lists@.len() <= j < p.modules.len() ==> program@.modules[j].0 == p.modules[j].0
                    && program@.modules[j].1 == (ModuleOf {
                    required_imports: program@.modules[j].1.required_imports,
                    ..p.modules[j].1
                }) && lists_imports(
                    p,
                    p.modules[j].0,
                    program@.modules[j].1.required_imports,
                ),
        decreases lists@.len(),
    {
        let ghost before = program@;
        let ghost olds = program.modules@;
        let ghost was = lists@;
        match lists.pop() {
            Some(list) => {
                let k = lists.len();
                assert(lists_imports(p, p.modules[k as int].0, was[k as int]@));
                assert(before.modules[k as int] == (olds[k as int].0, olds[k as int].1@));
                let ghost ids = list@;
                program.modules[k].1.required_imports = list;
                assert(program@.modules =~= before.modules.update(
                    k as int,
                    (
                        p.modules[k as int].0,
                        ModuleOf { required_imports: ids, ..p.modules[k as int].1 },
                    ),
                ));
            },
            None => {},
        }
    }
}

} // verus!
