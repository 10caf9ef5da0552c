//! Dynamic fields as typed maps: which functions work on dynamic fields, which
//! fields of a structure hold its dynamic fields, and the functions of the map.

use crate::ir::IRNode;
use crate::ir::Node;
use crate::program::{
    slot_of, FieldDef, FieldOf, Func, Function, FunctionSignature, Module, ModuleOf, Prog, Program,
    Signature, Struct, StructOf,
};
use crate::segments::next_id;
use crate::text::begins_with;
use crate::traverse::name_is;
use crate::types::{FunctionID, ModuleID, Name, StructID, Ty, Type};
use vstd::prelude::*;

verus! {

/// The functions of the typed map.
#[derive(Clone, Copy, Debug, PartialEq, Eq, Structural)]
pub struct TypedMapFunctions {
    pub module_id: ModuleID,
    pub get_id: FunctionID,
    pub set_id: FunctionID,
    pub erase_id: FunctionID,
    pub erase_if_exists_id: FunctionID,
    pub has_id: FunctionID,
    pub get_aborts_id: Option<FunctionID>,
    pub set_aborts_id: Option<FunctionID>,
    pub erase_aborts_id: Option<FunctionID>,
    pub erase_if_exists_aborts_id: Option<FunctionID>,
    pub has_aborts_id: Option<FunctionID>,
}

/// What a function does with a dynamic field.
#[derive(Clone, Copy, Debug, PartialEq, Eq, Structural)]
pub enum DynFieldOp {
    Add,
    Remove,
    RemoveIfExists,
    Borrow,
    BorrowMut,
    Exists,
}

/// The operation that a function of the dynamic field module is named for.
pub open spec fn op_named(name: Name) -> Option<DynFieldOp> {
    if name == "add"@ {
        Some(DynFieldOp::Add)
    } else if name == "remove"@ {
        Some(DynFieldOp::Remove)
    } else if name == "remove_if_exists"@ {
        Some(DynFieldOp::RemoveIfExists)
    } else if name == "borrow"@ {
        Some(DynFieldOp::Borrow)
    } else if name == "borrow_mut"@ {
        Some(DynFieldOp::BorrowMut)
    } else if name == "exists_with_type"@ || name == "exists_"@ {
        Some(DynFieldOp::Exists)
    } else {
        None
    }
}

/// The operation that a function of the dynamic field module is named for.
fn op_of(name: &String) -> (r: Option<DynFieldOp>)
    ensures
        r == op_named(name@),
{
    if name_is(name, "add") {
        Some(DynFieldOp::Add)
    } else if name_is(name, "remove") {
        Some(DynFieldOp::Remove)
    } else if name_is(name, "remove_if_exists") {
        Some(DynFieldOp::RemoveIfExists)
    } else if name_is(name, "borrow") {
        Some(DynFieldOp::Borrow)
    } else if name_is(name, "borrow_mut") {
        Some(DynFieldOp::BorrowMut)
    } else if name_is(name, "exists_with_type") || name_is(name, "exists_") {
        Some(DynFieldOp::Exists)
    } else {
        None
    }
}

/// The first module that is called `dynamic_field`.
pub open spec fn field_module(ms: Seq<(ModuleID, ModuleOf)>) -> Option<ModuleID>
    decreases ms.len(),
{
    if ms.len() == 0 {
        None
    } else {
        match field_module(ms.drop_last()) {
            Some(m) => Some(m),
            None => if ms.last().1.name == "dynamic_field"@ {
                Some(ms.last().0)
            } else {
                None
            },
        }
    }
}

/// The functions of a module that work on dynamic fields.
pub open spec fn field_ops(fs: Seq<(FunctionID, Func)>, m: ModuleID) -> Seq<
    (FunctionID, DynFieldOp),
>
    decreases fs.len(),
{
    if fs.len() == 0 {
        Seq::empty()
    } else {
        let before = field_ops(fs.drop_last(), m);
        let (id, f) = fs.last();
        match op_named(f.name) {
            Some(op) => if f.module_id == m {
                before.push((id, op))
            } else {
                before
            },
            None => before,
        }
    }
}

/// The functions of the program that work on dynamic fields.
pub open spec fn dynamic_ops(p: Prog) -> Seq<(FunctionID, DynFieldOp)> {
    match field_module(p.modules) {
        Some(m) => field_ops(p.functions, m),
        None => Seq::empty(),
    }
}

/// The first module that is called `dynamic_field`.
fn find_field_module(program: &Program) -> (r: Option<ModuleID>)
    ensures
        r == field_module(program@.modules),
{
    let ghost ms = program@.modules;
    let mut out: Option<ModuleID> = None;
    let mut i: usize = 0;
    assert(ms.subrange(0, 0) =~= Seq::empty());
    while i < program.modules.len()
        invariant
            i <= program.modules.len(),
            ms == program@.modules,
            out == field_module(ms.subrange(0, i as int)),
        decreases program.modules.len() - i,
    {
        let ghost next = ms.subrange(0, i + 1);
        assert(next.drop_last() =~= ms.subrange(0, i as int));
        assert(next.last() == (program.modules@[i as int].0, program.modules@[i as int].1@));
        if out.is_none() && name_is(&program.modules[i].1.name, "dynamic_field") {
            out = Some(program.modules[i].0);
        }
        i += 1;
    }
    assert(ms.subrange(0, i as int) =~= ms);
    out
}

/// The functions of the program that work on dynamic fields.
pub fn find_dynamic_field_functions(program: &Program) -> (r: Vec<(FunctionID, DynFieldOp)>)
    ensures
        r@ == dynamic_ops(program@),
{
    let mut out: Vec<(FunctionID, DynFieldOp)> = Vec::new();
    let m = match find_field_module(program) {
        Some(m) => m,
        None => {
            return out;
        },
    };
    let ghost fs = program@.functions;
    let mut i: usize = 0;
    assert(fs.subrange(0, 0) =~= Seq::empty());
    while i < program.functions.len()
        invariant
            i <= program.functions.len(),
            fs == program@.functions,
            out@ == field_ops(fs.subrange(0, i as int), m),
        decreases program.functions.len() - i,
    {
        let ghost next = fs.subrange(0, i + 1);
        assert(next.drop_last() =~= fs.subrange(0, i as int));
        assert(next.last() == (program.functions@[i as int].0, program.functions@[i as int].1@));
        if program.functions[i].1.module_id == m {
            if let Some(op) = op_of(&program.functions[i].1.name) {
                out.push((program.functions[i].0, op));
            }
        }
        i += 1;
    }
    assert(fs.subrange(0, i as int) =~= fs);
    out
}

/// A field that holds dynamic fields: where it stands, and the types of the keys
/// and the values.
#[derive(Debug)]
pub struct DfFieldEntry {
    pub field_index: usize,
    pub key_type: Type,
    pub value_type: Type,
}

/// What a [`DfFieldEntry`] holds.
#[verifier::ext_equal]
pub struct Entry {
    pub field_index: usize,
    pub key_type: Ty,
    pub value_type: Ty,
}

/// The fields that hold dynamic fields, of each structure that has any.
pub type FieldMap = Seq<(StructID, Seq<Entry>)>;

impl DfFieldEntry {
    /// What the entry holds.
    pub open spec fn view(&self) -> Entry {
        Entry {
            field_index: self.field_index,
            key_type: self.key_type@,
            value_type: self.value_type@,
        }
    }

    /// What each of the entries holds.
    pub open spec fn views(s: Seq<DfFieldEntry>) -> Seq<Entry> {
        Seq::new(s.len(), |i: int| s[i]@)
    }
}

/// What an executable field map holds.
pub open spec fn map_views(s: Seq<(StructID, Vec<DfFieldEntry>)>) -> FieldMap {
    Seq::new(s.len(), |i: int| (s[i].0, DfFieldEntry::views(s[i].1@)))
}

/// Whether a field of this name holds dynamic fields.
pub open spec fn holds_fields(name: Name) -> bool {
    name == "dynamic_fields"@ || crate::text::begins(name, "dynamic_fields_"@)
}

/// The key and value types of a list of pairs.
pub open spec fn pair_types(t: Ty) -> Option<(Ty, Ty)> {
    match t {
        Ty::Vector(inner) => match *inner {
            Ty::Tuple(pair) => if pair.len() == 2 {
                Some((pair[0], pair[1]))
            } else {
                None
            },
            _ => None,
        },
        _ => None,
    }
}

/// The fields of a structure that hold dynamic fields.
pub open spec fn entries_of(fs: Seq<FieldOf>) -> Seq<Entry>
    decreases fs.len(),
{
    if fs.len() == 0 {
        Seq::empty()
    } else {
        let before = entries_of(fs.drop_last());
        let f = fs.last();
        match pair_types(f.field_type) {
            Some((k, v)) => if holds_fields(f.name) {
                before.push(
                    Entry { field_index: (fs.len() - 1) as usize, key_type: k, value_type: v },
                )
            } else {
                before
            },
            None => before,
        }
    }
}

/// The fields that hold dynamic fields, of each structure that has any.
pub open spec fn field_map(ss: Seq<(StructID, StructOf)>) -> FieldMap
    decreases ss.len(),
{
    if ss.len() == 0 {
        Seq::empty()
    } else {
        let before = field_map(ss.drop_last());
        let es = entries_of(ss.last().1.fields);
        if es.len() > 0 {
            before.push((ss.last().0, es))
        } else {
            before
        }
    }
}

/// The key and value types of a list of pairs.
fn types_of_pair(t: &Type) -> (r: Option<(Type, Type)>)
    ensures
        match r {
            Some((k, v)) => pair_types(t@) == Some((k@, v@)),
            None => pair_types(t@) is None,
        },
{
    proof {
        reveal_with_fuel(Type::view, 2);
    }
    match t {
        Type::Vector(inner) => match &**inner {
            Type::Tuple(pair) => {
                assert(Type::views(pair@).len() == pair@.len());
                if pair.len() == 2 {
                    assert(Type::views(pair@)[0] == pair@[0]@);
                    assert(Type::views(pair@)[1] == pair@[1]@);
                    Some((pair[0].clone(), pair[1].clone()))
                } else {
                    None
                }
            },
            _ => None,
        },
        _ => None,
    }
}

/// The fields of a structure that hold dynamic fields.
fn find_entries(fields: &Vec<FieldDef>) -> (r: Vec<DfFieldEntry>)
    ensures
        DfFieldEntry::views(r@) == entries_of(FieldDef::views(fields@)),
{
    let ghost fs = FieldDef::views(fields@);
    let mut out: Vec<DfFieldEntry> = Vec::new();
    let mut i: usize = 0;
    assert(fs.subrange(0, 0) =~= Seq::empty());
    assert(DfFieldEntry::views(out@) =~= Seq::empty());
    while i < fields.len()
        invariant
            i <= fields.len(),
            fs == FieldDef::views(fields@),
            DfFieldEntry::views(out@) == entries_of(fs.subrange(0, i as int)),
        decreases fields.len() - i,
    {
        let ghost next = fs.subrange(0, i + 1);
        assert(next.drop_last() =~= fs.subrange(0, i as int));
        assert(next.last() == fields@[i as int]@);
        let ghost before = out@;
        if name_is(&fields[i].name, "dynamic_fields") || begins_with(
            &fields[i].name,
            "dynamic_fields_",
        ) {
            if let Some((k, v)) = types_of_pair(&fields[i].field_type) {
                out.push(DfFieldEntry { field_index: i, key_type: k, value_type: v });
                assert(DfFieldEntry::views(out@) =~= DfFieldEntry::views(before).push(
                    Entry { field_index: i, key_type: k@, value_type: v@ },
                ));
            }
        }
        i += 1;
    }
    assert(fs.subrange(0, i as int) =~= fs);
    out
}

/// The fields that hold dynamic fields, of each structure that has any.
pub fn build_df_field_map(program: &Program) -> (r: Vec<(StructID, Vec<DfFieldEntry>)>)
    ensures
        map_views(r@) == field_map(program@.structs),
{
    let ghost ss = program@.structs;
    let mut out: Vec<(StructID, Vec<DfFieldEntry>)> = Vec::new();
    let mut i: usize = 0;
    assert(ss.subrange(0, 0) =~= Seq::empty());
    assert(map_views(out@) =~= Seq::empty());
    while i < program.structs.len()
        invariant
            i <= program.structs.len(),
            ss == program@.structs,
            map_views(out@) == field_map(ss.subrange(0, i as int)),
        decreases program.structs.len() - i,
    {
        let ghost next = ss.subrange(0, i + 1);
        assert(next.drop_last() =~= ss.subrange(0, i as int));
        assert(next.last() == (program.structs@[i as int].0, program.structs@[i as int].1@));
        let ghost before = out@;
        let es = find_entries(&program.structs[i].1.fields);
        let ghost vs = DfFieldEntry::views(es@);
        assert(vs.len() == es@.len());
        if es.len() > 0 {
            out.push((program.structs[i].0, es));
            assert(map_views(out@) =~= map_views(before).push((ss[i as int].0, vs)));
        }
        i += 1;
    }
    assert(ss.subrange(0, i as int) =~= ss);
    out
}

/// Whether the structure has a field that holds dynamic fields.
pub open spec fn has_fields(m: FieldMap, id: StructID) -> bool {
    crate::program::lookup(m, id) is Some
}

/// The fields of a structure that hold dynamic fields.
pub fn entries_in<'a>(m: &'a Vec<(StructID, Vec<DfFieldEntry>)>, id: StructID) -> (r: Option<
    &'a Vec<DfFieldEntry>,
>)
    ensures
        match r {
            Some(es) => crate::program::lookup(map_views(m@), id) == Some(
                DfFieldEntry::views(es@),
            ),
            None => !has_fields(map_views(m@), id),
        },
{
    proof {
        crate::program::lemma_same_slots(m@, map_views(m@), id);
    }
    match slot_of(m, id) {
        Some(i) => Some(&m[i].1),
        None => None,
    }
}

/// The first entry with the key type, and with the value type where one is given.
pub open spec fn matching(es: Seq<Entry>, k: Ty, v: Option<Ty>) -> Option<Entry>
    decreases es.len(),
{
    if es.len() == 0 {
        None
    } else {
        match matching(es.drop_last(), k, v) {
            Some(e) => Some(e),
            None => if es.last().key_type == k && (v is None || v == Some(es.last().value_type)) {
                Some(es.last())
            } else {
                None
            },
        }
    }
}

/// The entry that a call with these type arguments works on: the only one, or the
/// one with its key and value types, or one with its key type.
pub open spec fn chosen_entry(m: FieldMap, id: StructID, types: Seq<Ty>) -> Option<Entry> {
    match crate::program::lookup(m, id) {
        Some(es) => if es.len() == 1 {
            Some(es[0])
        } else if types.len() == 0 {
            None
        } else {
            let full = if types.len() > 1 {
                matching(es, types[0], Some(types[1]))
            } else {
                None
            };
            match full {
                Some(e) => Some(e),
                None => matching(es, types[0], None),
            }
        },
        None => None,
    }
}

/// What a type that may be absent holds.
pub open spec fn optional_type(t: Option<&Type>) -> Option<Ty> {
    match t {
        Some(t) => Some(t@),
        None => None,
    }
}

/// The first entry with the key type, and with the value type where one is given.
fn find_matching<'a>(es: &'a Vec<DfFieldEntry>, k: &Type, v: Option<&Type>) -> (r: Option<
    &'a DfFieldEntry,
>)
    ensures
        match r {
            Some(e) => matching(DfFieldEntry::views(es@), k@, optional_type(v)) == Some(e@),
            None => matching(DfFieldEntry::views(es@), k@, optional_type(v)) is None,
        },
{
    let ghost all = DfFieldEntry::views(es@);
    let mut i: usize = 0;
    let mut out: Option<usize> = None;
    assert(all.subrange(0, 0) =~= Seq::empty());
    while i < es.len()
        invariant
            i <= es.len(),
            all == DfFieldEntry::views(es@),
            match out {
                Some(j) => j < es@.len() && matching(
                    all.subrange(0, i as int),
                    k@,
                    optional_type(v),
                ) == Some(es@[j as int]@),
                None => matching(all.subrange(0, i as int), k@, optional_type(v)) is None,
            },
        decreases es.len() - i,
    {
        let ghost next = all.subrange(0, i + 1);
        assert(next.drop_last() =~= all.subrange(0, i as int));
        assert(next.last() == es@[i as int]@);
        if out.is_none() && es[i].key_type.same(k) {
            let fits = match v {
                Some(t) => es[i].value_type.same(t),
                None => true,
            };
            if fits {
                out = Some(i);
            }
        }
        i += 1;
    }
    assert(all.subrange(0, i as int) =~= all);
    match out {
        Some(j) => Some(&es[j]),
        None => None,
    }
}

/// The entry that a call with these type arguments works on.
pub fn lookup_df_entry<'a>(
    m: &'a Vec<(StructID, Vec<DfFieldEntry>)>,
    id: StructID,
    types: &Vec<Type>,
) -> (r: Option<&'a DfFieldEntry>)
    ensures
        match r {
            Some(e) => chosen_entry(map_views(m@), id, Type::views(types@)) == Some(e@),
            None => chosen_entry(map_views(m@), id, Type::views(types@)) is None,
        },
{
    let ghost ts = Type::views(types@);
    assert(ts.len() == types@.len());
    let es = match entries_in(m, id) {
        Some(es) => es,
        None => {
            return None;
        },
    };
    assert(DfFieldEntry::views(es@).len() == es@.len());
    if es.len() == 1 {
        assert(DfFieldEntry::views(es@)[0] == es@[0]@);
        return Some(&es[0]);
    }
    if types.len() == 0 {
        return None;
    }
    assert(ts[0] == types@[0]@);
    if types.len() > 1 {
        assert(ts[1] == types@[1]@);
        if let Some(e) = find_matching(es, &types[0], Some(&types[1])) {
            return Some(e);
        }
    }
    find_matching(es, &types[0], None)
}

/// The key and value types of a call on the map: those of the call, or where it
/// has none, those of the entry.
pub open spec fn map_types(e: Entry, types: Seq<Ty>) -> Seq<Ty> {
    seq![
        if types.len() > 0 {
            types[0]
        } else {
            e.key_type
        },
        if types.len() > 1 {
            types[1]
        } else {
            e.value_type
        },
    ]
}

/// The key and value types of a call on the map.
pub fn types_of_map(e: &DfFieldEntry, types: &Vec<Type>) -> (r: Vec<Type>)
    ensures
        Type::views(r@) == map_types(e@, Type::views(types@)),
{
    let ghost ts = Type::views(types@);
    assert(ts.len() == types@.len());
    let k = if types.len() > 0 {
        assert(ts[0] == types@[0]@);
        types[0].clone()
    } else {
        e.key_type.clone()
    };
    let v = if types.len() > 1 {
        assert(ts[1] == types@[1]@);
        types[1].clone()
    } else {
        e.value_type.clone()
    };
    let mut out: Vec<Type> = Vec::new();
    out.push(k);
    out.push(v);
    assert(Type::views(out@) =~= map_types(e@, ts));
    out
}

/// The structure that a type names, behind any references.
pub open spec fn struct_named(t: Ty) -> Option<(StructID, Seq<Ty>)>
    decreases t,
{
    match t {
        Ty::Struct { struct_id, type_args } => Some((struct_id, type_args)),
        Ty::Reference(inner) => struct_named(*inner),
        Ty::MutableReference(inner, _) => struct_named(*inner),
        _ => None,
    }
}

/// The structure that a type names, behind any references, with its arguments.
pub fn struct_id_of(t: &Type) -> (r: Option<(StructID, &Vec<Type>)>)
    ensures
        match r {
            Some((id, args)) => struct_named(t@) == Some((id, Type::views(args@))),
            None => struct_named(t@) is None,
        },
    decreases t,
{
    match t {
        Type::Struct { struct_id, type_args } => Some((*struct_id, type_args)),
        Type::Reference(inner) => struct_id_of(inner),
        Type::MutableReference(inner, _) => struct_id_of(inner),
        _ => None,
    }
}

/// The module of the typed map.
pub open spec fn map_module() -> ModuleOf {
    ModuleOf {
        name: "TypedMap"@,
        package_name: "Prelude"@,
        required_imports: Seq::empty(),
        is_native: true,
    }
}

/// A function of the typed map.
pub open spec fn map_function(m: ModuleID, name: Name, ret: Ty) -> Func {
    Func {
        module_id: m,
        name,
        signature: Signature {
            type_params: seq!["K"@, "V"@],
            parameters: Seq::empty(),
            proof_params: Seq::empty(),
            return_type: ret,
        },
        body: Node::unit(),
        theorem: None,
        is_native: true,
        mutual_group_id: None,
        is_uninterpreted: false,
    }
}

/// The type of the values of the map.
pub open spec fn value_ty() -> Ty {
    Ty::TypeParameter(1)
}

/// The type of the map: a list of pairs of a key and a value.
pub open spec fn pairs_ty() -> Ty {
    Ty::Vector(Box::new(Ty::Tuple(seq![Ty::TypeParameter(0), value_ty()])))
}

/// The functions of the typed map, numbered from `n` on.
pub open spec fn map_functions(m: ModuleID, n: int) -> Seq<(FunctionID, Func)> {
    seq![
        (n as usize, map_function(m, "get"@, value_ty())),
        ((n + 1) as usize, map_function(m, "set"@, pairs_ty())),
        (
            (n + 2) as usize,
            map_function(m, "erase"@, Ty::Tuple(seq![value_ty(), pairs_ty()])),
        ),
        (
            (n + 3) as usize,
            map_function(
                m,
                "erase_if_exists"@,
                Ty::Tuple(seq![Ty::Vector(Box::new(value_ty())), pairs_ty()]),
            ),
        ),
        ((n + 4) as usize, map_function(m, "has"@, Ty::Bool)),
        ((n + 5) as usize, map_function(m, "get.aborts"@, Ty::Bool)),
        ((n + 6) as usize, map_function(m, "set.aborts"@, Ty::Bool)),
        ((n + 7) as usize, map_function(m, "erase.aborts"@, Ty::Bool)),
        ((n + 8) as usize, map_function(m, "erase_if_exists.aborts"@, Ty::Bool)),
        ((n + 9) as usize, map_function(m, "has.aborts"@, Ty::Bool)),
    ]
}

/// The numbers of the functions of the map.
pub open spec fn map_ids(m: ModuleID, n: int) -> TypedMapFunctions {
    TypedMapFunctions {
        module_id: m,
        get_id: n as usize,
        set_id: (n + 1) as usize,
        erase_id: (n + 2) as usize,
        erase_if_exists_id: (n + 3) as usize,
        has_id: (n + 4) as usize,
        get_aborts_id: Some((n + 5) as usize),
        set_aborts_id: Some((n + 6) as usize),
        erase_aborts_id: Some((n + 7) as usize),
        erase_if_exists_aborts_id: Some((n + 8) as usize),
        has_aborts_id: Some((n + 9) as usize),
    }
}

/// The highest number of a module, or zero.
pub open spec fn top_module(ms: Seq<(ModuleID, ModuleOf)>) -> nat {
    let n = crate::segments::above(ms);
    if n == 0 {
        0
    } else {
        (n - 1) as nat
    }
}

/// Whether there are numbers left for the module of the map and its functions.
pub open spec fn has_room(p: Prog) -> bool {
    top_module(p.modules) + 1000 <= usize::MAX && crate::segments::above(p.functions) + 9
        <= usize::MAX
}

/// The number of the module of the map: well above those of the modules.
pub open spec fn map_module_id(p: Prog) -> ModuleID {
    (top_module(p.modules) + 1000) as usize
}

/// The program with the typed map.
pub open spec fn with_map(p: Prog) -> Prog {
    Prog {
        modules: p.modules.push((map_module_id(p), map_module())),
        functions: p.functions + map_functions(
            map_module_id(p),
            crate::segments::above(p.functions) as int,
        ),
        ..p
    }
}

/// The functions of the map that the program gets.
pub open spec fn made_map(p: Prog) -> TypedMapFunctions {
    map_ids(map_module_id(p), crate::segments::above(p.functions) as int)
}

/// The highest number of a module, or zero.
fn highest_module(program: &Program) -> (r: usize)
    ensures
        r == top_module(program@.modules),
{
    let ghost ms = program@.modules;
    let mut top: usize = 0;
    let mut i: usize = 0;
    assert(ms.subrange(0, 0) =~= Seq::empty());
    while i < program.modules.len()
        invariant
            i <= program.modules.len(),
            ms == program@.modules,
            top == top_module(ms.subrange(0, i as int)),
        decreases program.modules.len() - i,
    {
        let ghost next = ms.subrange(0, i + 1);
        assert(next.drop_last() =~= ms.subrange(0, i as int));
        let id = program.modules[i].0;
        assert(next.last().0 == id);
        if id > top {
            top = id;
        }
        i += 1;
    }
    assert(ms.subrange(0, i as int) =~= ms);
    top
}

/// A function of the typed map.
fn make_map_function(m: ModuleID, name: &str, ret: Type) -> (r: Function)
    ensures
        r@ == map_function(m, name@, ret@),
{
    let mut type_params: Vec<String> = Vec::new();
    type_params.push("K".to_owned());
    type_params.push("V".to_owned());
    assert(crate::ir::names(type_params@) =~= seq!["K"@, "V"@]);
    let f = Function {
        module_id: m,
        name: name.to_owned(),
        signature: FunctionSignature {
            type_params,
            parameters: Vec::new(),
            proof_params: Vec::new(),
            return_type: ret,
        },
        body: IRNode::unit(),
        theorem: None,
        is_native: true,
        mutual_group_id: None,
        is_uninterpreted: false,
    };
    assert(f@.signature =~= map_function(m, name@, ret@).signature);
    f
}

/// The type of the map.
fn make_pairs_type() -> (r: Type)
    ensures
        r@ == pairs_ty(),
{
    let mut pair: Vec<Type> = Vec::new();
    pair.push(Type::TypeParameter(0));
    pair.push(Type::TypeParameter(1));
    assert(Type::views(pair@) =~= seq![Ty::TypeParameter(0), value_ty()]);
    let inner = Type::Tuple(pair);
    assert(inner@ == Ty::Tuple(seq![Ty::TypeParameter(0), value_ty()]));
    Type::Vector(Box::new(inner))
}

/// The type of a pair of something and the map.
fn make_with_pairs(first: Type) -> (r: Type)
    ensures
        r@ == Ty::Tuple(seq![first@, pairs_ty()]),
{
    let mut pair: Vec<Type> = Vec::new();
    pair.push(first);
    pair.push(make_pairs_type());
    assert(Type::views(pair@) =~= seq![first@, pairs_ty()]);
    Type::Tuple(pair)
}

impl Program {
    /// Adds a function behind the others.
    fn append_function(&mut self, id: FunctionID, f: Function)
        ensures
            final(self)@ == (Prog {
                functions: old(self)@.functions.push((id, f@)),
                ..old(self)@
            }),
    {
        let ghost before = self@;
        self.functions.push((id, f));
        assert(self@.functions =~= before.functions.push((id, f@)));
    }
}

/// Adds the module of the typed map and its functions to the program.
pub fn create_typed_map_module(program: &mut Program) -> (r: TypedMapFunctions)
    requires
        has_room(old(program)@),
    ensures
        r == made_map(old(program)@),
        final(program)@ == with_map(old(program)@),
{
    let ghost start = program@;
    let m: usize = highest_module(program) + 1000;
    let n: usize = match next_id(program) {
        Some(n) => n,
        None => 0,
    };
    program.modules.push(
        (
            m,
            Module {
                name: "TypedMap".to_owned(),
                package_name: "Prelude".to_owned(),
                required_imports: Vec::new(),
                is_native: true,
            },
        ),
    );
    assert(program@.modules =~= start.modules.push((m, map_module())));
    let ghost with_module = program@;
    assert(with_module =~= (Prog { modules: start.modules.push((m, map_module())), ..start }));
    program.append_function(n, make_map_function(m, "get", Type::TypeParameter(1)));
    program.append_function(n + 1, make_map_function(m, "set", make_pairs_type()));
    program.append_function(
        n + 2,
        make_map_function(m, "erase", make_with_pairs(Type::TypeParameter(1))),
    );
    program.append_function(
        n + 3,
        make_map_function(
            m,
            "erase_if_exists",
            make_with_pairs(Type::Vector(Box::new(Type::TypeParameter(1)))),
        ),
    );
    program.append_function(n + 4, make_map_function(m, "has", Type::Bool));
    program.append_function(n + 5, make_map_function(m, "get.aborts", Type::Bool));
    program.append_function(n + 6, make_map_function(m, "set.aborts", Type::Bool));
    program.append_function(n + 7, make_map_function(m, "erase.aborts", Type::Bool));
    program.append_function(n + 8, make_map_function(m, "erase_if_exists.aborts", Type::Bool));
    program.append_function(n + 9, make_map_function(m, "has.aborts", Type::Bool));
    assert(program@.functions =~= start.functions + map_functions(m, n as int)) by {
        reveal_with_fuel(Type::view, 3);
    }
    assert(program@ =~= with_map(start));
    TypedMapFunctions {
        module_id: m,
        get_id: n,
        set_id: n + 1,
        erase_id: n + 2,
        erase_if_exists_id: n + 3,
        has_id: n + 4,
        get_aborts_id: Some(n + 5),
        set_aborts_id: Some(n + 6),
        erase_aborts_id: Some(n + 7),
        erase_if_exists_aborts_id: Some(n + 8),
        has_aborts_id: Some(n + 9),
    }
}

} // verus!
