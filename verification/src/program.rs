//! The program: its functions, structures and modules, and what the passes
//! record about them.

use crate::bundles::{AbortsBundle, Bundle};
use crate::typed_maps::TypedMapFunctions;
use crate::frame_lemmas::{FrameLemmaSet, FrameSet};
use crate::ir::{IRNode, Node};
use crate::traverse::push_name;
use crate::types::{FunctionID, ModuleID, Name, StructID, TempId, Ty, Type};
use vstd::prelude::*;

verus! {

/// Whether `i` is the first position of a list at which the key stands.
pub open spec fn is_slot<T>(s: Seq<(usize, T)>, id: usize, i: int) -> bool {
    0 <= i < s.len() && s[i].0 == id && forall|j: int| 0 <= j < i ==> (#[trigger] s[j]).0 != id
}

/// The first position of a list at which the key stands.
pub open spec fn slot<T>(s: Seq<(usize, T)>, id: usize) -> Option<int> {
    if exists|i: int| is_slot(s, id, i) {
        Some(choose|i: int| is_slot(s, id, i))
    } else {
        None
    }
}

/// The value that a list gives to a key.
pub open spec fn lookup<T>(s: Seq<(usize, T)>, id: usize) -> Option<T> {
    match slot(s, id) {
        Some(i) => Some(s[i].1),
        None => None,
    }
}

/// Whether a list is what is left of another once some elements are taken out.
pub open spec fn is_part<T>(part: Seq<T>, whole: Seq<T>) -> bool
    decreases whole.len(),
{
    if part.len() == 0 {
        true
    } else if whole.len() == 0 {
        false
    } else {
        (part.last() == whole.last() && is_part(part.drop_last(), whole.drop_last())) || is_part(
            part,
            whole.drop_last(),
        )
    }
}

/// What is left of what is left of a list is left of the list.
pub proof fn lemma_part_of_part<T>(a: Seq<T>, b: Seq<T>, c: Seq<T>)
    requires
        is_part(a, b),
        is_part(b, c),
    ensures
        is_part(a, c),
    decreases c.len(),
{
    if a.len() > 0 {
        let (x, y, z) = (a.drop_last(), b.drop_last(), c.drop_last());
        if is_part(b, z) {
            lemma_part_of_part(a, b, z);
        } else if is_part(a, y) {
            lemma_part_of_part(a, y, z);
        } else {
            lemma_part_of_part(x, y, z);
        }
    }
}

/// The list with a value given to a key: in place, or behind the others.
pub open spec fn stored<T>(s: Seq<(usize, T)>, id: usize, v: T) -> Seq<(usize, T)> {
    match slot(s, id) {
        Some(i) => s.update(i, (id, v)),
        None => s.push((id, v)),
    }
}

/// The first position of a key is unique.
pub proof fn lemma_slot<T>(s: Seq<(usize, T)>, id: usize, i: int)
    requires
        is_slot(s, id, i),
    ensures
        slot(s, id) == Some(i),
{
    let k = choose|k: int| is_slot(s, id, k);
    assert(is_slot(s, id, k));
    if k < i {
        assert(s[k].0 != id);
    }
    if i < k {
        assert(s[i].0 != id);
    }
}

/// A key that stands somewhere has a first position.
pub proof fn lemma_slot_exists<T>(s: Seq<(usize, T)>, id: usize, i: int)
    requires
        0 <= i < s.len(),
        s[i].0 == id,
    ensures
        exists|k: int| is_slot(s, id, k),
        slot(s, id) is Some,
    decreases i,
{
    if exists|j: int| 0 <= j < i && (#[trigger] s[j]).0 == id {
        let j = choose|j: int| 0 <= j < i && (#[trigger] s[j]).0 == id;
        lemma_slot_exists(s, id, j);
    } else {
        assert(is_slot(s, id, i));
    }
}

/// One more entry, under another key, leaves what is found.
pub proof fn lemma_lookup_push<T>(s: Seq<(usize, T)>, x: (usize, T), id: usize)
    requires
        x.0 != id,
    ensures
        lookup(s.push(x), id) == lookup(s, id),
{
    let t = s.push(x);
    match slot(s, id) {
        Some(i) => {
            assert(is_slot(s, id, i));
            assert forall|j: int| 0 <= j < i implies (#[trigger] t[j]).0 != id by {
                assert(t[j] == s[j]);
            }
            assert(t[i] == s[i]);
            assert(is_slot(t, id, i));
            lemma_slot(t, id, i);
        },
        None => {
            if slot(t, id) is Some {
                let i = slot(t, id)->0;
                assert(is_slot(t, id, i));
                assert(s[i] == t[i]);
                lemma_slot_exists(s, id, i);
            }
        },
    }
}

/// Lists with the same keys have the same positions.
pub proof fn lemma_same_slots<A, B>(a: Seq<(usize, A)>, b: Seq<(usize, B)>, id: usize)
    requires
        a.len() == b.len(),
        forall|i: int| 0 <= i < a.len() ==> (#[trigger] a[i]).0 == b[i].0,
    ensures
        slot(a, id) == slot(b, id),
{
    assert forall|i: int| is_slot(a, id, i) <==> is_slot(b, id, i) by {
        if is_slot(a, id, i) {
            assert(b[i].0 == a[i].0);
            assert forall|j: int| 0 <= j < i implies (#[trigger] b[j]).0 != id by {
                assert(a[j].0 == b[j].0);
            }
        }
        if is_slot(b, id, i) {
            assert(a[i].0 == b[i].0);
            assert forall|j: int| 0 <= j < i implies (#[trigger] a[j]).0 != id by {
                assert(a[j].0 == b[j].0);
            }
        }
    }
    if exists|i: int| is_slot(a, id, i) {
        let i = choose|i: int| is_slot(a, id, i);
        assert(is_slot(b, id, i));
        lemma_slot(a, id, i);
        lemma_slot(b, id, i);
    } else {
        assert(!exists|i: int| is_slot(b, id, i)) by {
            if exists|i: int| is_slot(b, id, i) {
                let i = choose|i: int| is_slot(b, id, i);
                assert(is_slot(a, id, i));
            }
        }
    }
}

/// The first position of a key in a list.
pub fn slot_of<T>(v: &Vec<(usize, T)>, id: usize) -> (r: Option<usize>)
    ensures
        match r {
            Some(i) => is_slot(v@, id, i as int) && slot(v@, id) == Some(i as int),
            None => slot(v@, id) is None && forall|j: int|
                0 <= j < v@.len() ==> (#[trigger] v@[j]).0 != id,
        },
{
    let mut i: usize = 0;
    while i < v.len()
        invariant
            i <= v.len(),
            forall|j: int| 0 <= j < i ==> (#[trigger] v@[j]).0 != id,
        decreases v.len() - i,
    {
        if v[i].0 == id {
            proof {
                assert(is_slot(v@, id, i as int));
                lemma_slot(v@, id, i as int);
            }
            return Some(i);
        }
        i += 1;
    }
    None
}

/// A value parameter of a function.
#[derive(Debug)]
pub struct Parameter {
    pub name: String,
    pub param_type: Type,
    pub ssa_value: TempId,
}

/// What a [`Parameter`] holds.
#[verifier::ext_equal]
pub struct Param {
    pub name: Name,
    pub param_type: Ty,
    pub ssa_value: Name,
}

impl Parameter {
    /// What the parameter holds.
    pub open spec fn view(&self) -> Param {
        Param { name: self.name@, param_type: self.param_type@, ssa_value: self.ssa_value@ }
    }

    /// What each of the parameters holds.
    pub open spec fn views(s: Seq<Parameter>) -> Seq<Param> {
        Seq::new(s.len(), |i: int| s[i]@)
    }
}

impl Clone for Parameter {
    fn clone(&self) -> (r: Self)
        ensures
            r@ == self@,
    {
        Parameter {
            name: self.name.clone(),
            param_type: self.param_type.clone(),
            ssa_value: self.ssa_value.clone(),
        }
    }
}

/// A copy of a list of parameters.
pub fn clone_params(v: &Vec<Parameter>) -> (r: Vec<Parameter>)
    ensures
        Parameter::views(r@) == Parameter::views(v@),
{
    let mut out: Vec<Parameter> = Vec::new();
    let mut i: usize = 0;
    while i < v.len()
        invariant
            i <= v.len(),
            out@.len() == i,
            forall|j: int| 0 <= j < i ==> (#[trigger] out@[j])@ == v@[j]@,
        decreases v.len() - i,
    {
        out.push(v[i].clone());
        i += 1;
    }
    assert(Parameter::views(out@) =~= Parameter::views(v@));
    out
}

/// What a proof parameter states.
#[derive(Debug)]
pub enum ProofParamType {
    Verbatim(String),
    DataInv { parent_expr: String },
    DataInvWorld { parent_expr: String },
}

/// A proof parameter of a function.
#[derive(Debug)]
pub struct ProofParam {
    pub name: String,
    pub param_type: ProofParamType,
}

/// What a [`ProofParamType`] holds.
pub enum PropText {
    Verbatim(Name),
    DataInv { parent_expr: Name },
    DataInvWorld { parent_expr: Name },
}

/// What a [`ProofParam`] holds.
pub struct Hypothesis {
    pub name: Name,
    pub param_type: PropText,
}

impl ProofParam {
    /// What the proof parameter holds.
    pub open spec fn view(&self) -> Hypothesis {
        Hypothesis {
            name: self.name@,
            param_type: match self.param_type {
                ProofParamType::Verbatim(t) => PropText::Verbatim(t@),
                ProofParamType::DataInv { parent_expr } => PropText::DataInv {
                    parent_expr: parent_expr@,
                },
                ProofParamType::DataInvWorld { parent_expr } => PropText::DataInvWorld {
                    parent_expr: parent_expr@,
                },
            },
        }
    }

    /// What each of the proof parameters holds.
    pub open spec fn views(s: Seq<ProofParam>) -> Seq<Hypothesis> {
        Seq::new(s.len(), |i: int| s[i]@)
    }
}

impl Clone for ProofParam {
    fn clone(&self) -> (r: Self)
        ensures
            r@ == self@,
    {
        ProofParam {
            name: self.name.clone(),
            param_type: match &self.param_type {
                ProofParamType::Verbatim(t) => ProofParamType::Verbatim(t.clone()),
                ProofParamType::DataInv { parent_expr } => ProofParamType::DataInv {
                    parent_expr: parent_expr.clone(),
                },
                ProofParamType::DataInvWorld { parent_expr } => ProofParamType::DataInvWorld {
                    parent_expr: parent_expr.clone(),
                },
            },
        }
    }
}

/// The interface of a function.
#[derive(Debug)]
pub struct FunctionSignature {
    pub type_params: Vec<String>,
    pub parameters: Vec<Parameter>,
    pub proof_params: Vec<ProofParam>,
    pub return_type: Type,
}

/// What a [`FunctionSignature`] holds.
#[verifier::ext_equal]
pub struct Signature {
    pub type_params: Seq<Name>,
    pub parameters: Seq<Param>,
    pub proof_params: Seq<Hypothesis>,
    pub return_type: Ty,
}

impl FunctionSignature {
    /// What the signature holds.
    pub open spec fn view(&self) -> Signature {
        Signature {
            type_params: crate::ir::names(self.type_params@),
            parameters: Parameter::views(self.parameters@),
            proof_params: ProofParam::views(self.proof_params@),
            return_type: self.return_type@,
        }
    }
}

/// A function of the program.
#[derive(Debug)]
pub struct Function {
    pub module_id: ModuleID,
    pub name: String,
    pub signature: FunctionSignature,
    pub body: IRNode,
    pub theorem: Option<String>,
    pub is_native: bool,
    pub mutual_group_id: Option<usize>,
    pub is_uninterpreted: bool,
}

/// What a [`Function`] holds.
#[verifier::ext_equal]
pub struct Func {
    pub module_id: ModuleID,
    pub name: Name,
    pub signature: Signature,
    pub body: Node,
    pub theorem: Option<Name>,
    pub is_native: bool,
    pub mutual_group_id: Option<usize>,
    pub is_uninterpreted: bool,
}

/// The contents of a name that may be absent.
pub open spec fn optional_name(s: Option<String>) -> Option<Name> {
    match s {
        Some(t) => Some(t@),
        None => None,
    }
}

impl Function {
    /// What the function holds.
    pub open spec fn view(&self) -> Func {
        Func {
            module_id: self.module_id,
            name: self.name@,
            signature: self.signature@,
            body: self.body@,
            theorem: optional_name(self.theorem),
            is_native: self.is_native,
            mutual_group_id: self.mutual_group_id,
            is_uninterpreted: self.is_uninterpreted,
        }
    }

    /// What each of the functions holds, with its identifier.
    pub open spec fn views(s: Seq<(FunctionID, Function)>) -> Seq<(FunctionID, Func)> {
        Seq::new(s.len(), |i: int| (s[i].0, s[i].1@))
    }
}

/// A field of a structure or of a variant.
#[derive(Debug)]
pub struct FieldDef {
    pub name: String,
    pub field_type: Type,
}

/// What a [`FieldDef`] holds.
pub struct FieldOf {
    pub name: Name,
    pub field_type: Ty,
}

impl FieldDef {
    /// What the field holds.
    pub open spec fn view(&self) -> FieldOf {
        FieldOf { name: self.name@, field_type: self.field_type@ }
    }

    /// What each of the fields holds.
    pub open spec fn views(s: Seq<FieldDef>) -> Seq<FieldOf> {
        Seq::new(s.len(), |i: int| s[i]@)
    }
}

/// A variant of an enumeration.
#[derive(Debug)]
pub struct Variant {
    pub tag: usize,
    pub fields: Vec<FieldDef>,
}

/// What a [`Variant`] holds.
pub struct VariantOf {
    pub tag: usize,
    pub fields: Seq<FieldOf>,
}

impl Variant {
    /// What the variant holds.
    pub open spec fn view(&self) -> VariantOf {
        VariantOf { tag: self.tag, fields: FieldDef::views(self.fields@) }
    }

    /// What each of the variants holds.
    pub open spec fn views(s: Seq<Variant>) -> Seq<VariantOf> {
        Seq::new(s.len(), |i: int| s[i]@)
    }
}

/// A structure of the program; an enumeration has variants.
#[derive(Debug)]
pub struct Struct {
    pub module_id: ModuleID,
    pub name: String,
    pub type_params: Vec<String>,
    pub fields: Vec<FieldDef>,
    pub variants: Option<Vec<Variant>>,
    pub mutual_group_id: Option<usize>,
}

/// What a [`Struct`] holds.
pub struct StructOf {
    pub module_id: ModuleID,
    pub name: Name,
    pub type_params: Seq<Name>,
    pub fields: Seq<FieldOf>,
    pub variants: Option<Seq<VariantOf>>,
    pub mutual_group_id: Option<usize>,
}

impl Struct {
    /// What the structure holds.
    pub open spec fn view(&self) -> StructOf {
        StructOf {
            module_id: self.module_id,
            name: self.name@,
            type_params: crate::ir::names(self.type_params@),
            fields: FieldDef::views(self.fields@),
            variants: match self.variants {
                Some(v) => Some(Variant::views(v@)),
                None => None,
            },
            mutual_group_id: self.mutual_group_id,
        }
    }

    /// What each of the structures holds, with its identifier.
    pub open spec fn views(s: Seq<(StructID, Struct)>) -> Seq<(StructID, StructOf)> {
        Seq::new(s.len(), |i: int| (s[i].0, s[i].1@))
    }
}

/// A module of the program.
#[derive(Debug)]
pub struct Module {
    pub name: String,
    pub package_name: String,
    pub required_imports: Vec<ModuleID>,
    pub is_native: bool,
}

/// What a [`Module`] holds.
#[verifier::ext_equal]
pub struct ModuleOf {
    pub name: Name,
    pub package_name: Name,
    pub required_imports: Seq<ModuleID>,
    pub is_native: bool,
}

impl Module {
    /// What the module holds.
    pub open spec fn view(&self) -> ModuleOf {
        ModuleOf {
            name: self.name@,
            package_name: self.package_name@,
            required_imports: self.required_imports@,
            is_native: self.is_native,
        }
    }

    /// What each of the modules holds, with its identifier.
    pub open spec fn views(s: Seq<(ModuleID, Module)>) -> Seq<(ModuleID, ModuleOf)> {
        Seq::new(s.len(), |i: int| (s[i].0, s[i].1@))
    }
}

/// The invariant hypothesis that a loop helper carries.
#[derive(Debug)]
pub struct LoopInvHyp {
    pub hyp_param: String,
    pub hook_name: String,
}

/// What the termination files of a package declare.
#[derive(Debug)]
pub struct TerminationDecls {
    pub loop_hyp: Vec<String>,
    pub precond: Vec<String>,
    pub termination: Vec<String>,
    pub module_options: Vec<(ModuleID, Vec<String>)>,
}

/// What a [`TerminationDecls`] holds.
#[verifier::ext_equal]
pub struct Decls {
    pub loop_hyp: Seq<Name>,
    pub precond: Seq<Name>,
    pub termination: Seq<Name>,
    pub module_options: Seq<(ModuleID, Seq<Name>)>,
}

/// What a list of pairs of names holds.
pub open spec fn name_pairs(s: Seq<(String, String)>) -> Seq<(Name, Name)> {
    Seq::new(s.len(), |i: int| (s[i].0@, s[i].1@))
}

/// What a list of pairs of types holds.
pub open spec fn type_pairs(s: Seq<(Type, Type)>) -> Seq<(Ty, Ty)> {
    Seq::new(s.len(), |i: int| (s[i].0@, s[i].1@))
}

/// The functions that work on the world: the store of dynamic fields and objects
/// that state-changing functions take and return.
#[derive(Clone, Copy, Debug, PartialEq, Eq, Structural)]
pub struct WorldFunctions {
    pub module_id: ModuleID,
    pub world_struct: StructID,
    pub set_df: FunctionID,
    pub erase_df: FunctionID,
    pub put_owned: FunctionID,
    pub put_shared: FunctionID,
    pub put_frozen: FunctionID,
    pub emit_event: FunctionID,
    pub pfst: FunctionID,
    pub psnd: FunctionID,
}

/// The program, with what the passes record about it.
pub struct Program {
    pub functions: Vec<(FunctionID, Function)>,
    pub structs: Vec<(StructID, Struct)>,
    pub modules: Vec<(ModuleID, Module)>,
    pub loop_inv_hyps: Vec<(FunctionID, LoopInvHyp)>,
    pub loop_invariants: Vec<(String, FunctionID)>,
    pub loop_inv_entry_impls: Vec<String>,
    pub fn_proof_params: Vec<(FunctionID, Vec<(String, String)>)>,
    pub callee_requires_impls: Vec<FunctionID>,
    pub callee_requires_precond_callers: Vec<FunctionID>,
    pub namespace_overrides: Vec<(ModuleID, String)>,
    pub lean_termination_decls: TerminationDecls,
    pub ghost_native_seed: Vec<(FunctionID, Vec<(Type, Type)>)>,
    pub ghost_vars: Vec<(FunctionID, Vec<(Type, Type)>)>,
    pub fn_hascode_params: Vec<(FunctionID, Vec<usize>)>,
    pub fn_bagu_params: Vec<(FunctionID, Vec<usize>)>,
    pub world_functions: Option<WorldFunctions>,
    pub typed_map_functions: Option<TypedMapFunctions>,
    pub aborts_bundles: Vec<AbortsBundle>,
    pub ensures_bundles: Vec<AbortsBundle>,
    pub aborts_decompositions: Vec<(FunctionID, FunctionID)>,
    pub frame_lemmas: Vec<FrameLemmaSet>,
}

/// What a [`Program`] holds.
#[verifier::ext_equal]
pub struct Prog {
    pub functions: Seq<(FunctionID, Func)>,
    pub structs: Seq<(StructID, StructOf)>,
    pub modules: Seq<(ModuleID, ModuleOf)>,
    pub loop_inv_hyps: Seq<(FunctionID, (Name, Name))>,
    pub loop_invariants: Seq<(Name, FunctionID)>,
    pub loop_inv_entry_impls: Seq<Name>,
    pub fn_proof_params: Seq<(FunctionID, Seq<(Name, Name)>)>,
    pub callee_requires_impls: Seq<FunctionID>,
    pub callee_requires_precond_callers: Seq<FunctionID>,
    pub namespace_overrides: Seq<(ModuleID, Name)>,
    pub decls: Decls,
    pub ghost_native_seed: Seq<(FunctionID, Seq<(Ty, Ty)>)>,
    pub ghost_vars: Seq<(FunctionID, Seq<(Ty, Ty)>)>,
    pub fn_hascode_params: Seq<(FunctionID, Seq<usize>)>,
    pub fn_bagu_params: Seq<(FunctionID, Seq<usize>)>,
    pub world_functions: Option<WorldFunctions>,
    pub typed_map_functions: Option<TypedMapFunctions>,
    pub aborts_bundles: Seq<Bundle>,
    pub ensures_bundles: Seq<Bundle>,
    pub aborts_decompositions: Seq<(FunctionID, FunctionID)>,
    pub frame_lemmas: Seq<FrameSet>,
}

impl TerminationDecls {
    /// What the declarations hold.
    pub open spec fn view(&self) -> Decls {
        Decls {
            loop_hyp: crate::ir::names(self.loop_hyp@),
            precond: crate::ir::names(self.precond@),
            termination: crate::ir::names(self.termination@),
            module_options: Seq::new(
                self.module_options@.len(),
                |i: int|
                    (self.module_options@[i].0, crate::ir::names(self.module_options@[i].1@)),
            ),
        }
    }
}

/// What a list of hypotheses holds.
pub open spec fn hyp_views(s: Seq<(FunctionID, LoopInvHyp)>) -> Seq<(FunctionID, (Name, Name))> {
    Seq::new(s.len(), |i: int| (s[i].0, (s[i].1.hyp_param@, s[i].1.hook_name@)))
}

/// What a list of named functions holds.
pub open spec fn keyed_views(s: Seq<(String, FunctionID)>) -> Seq<(Name, FunctionID)> {
    Seq::new(s.len(), |i: int| (s[i].0@, s[i].1))
}

/// What a list of proof parameter lists holds.
pub open spec fn param_list_views(s: Seq<(FunctionID, Vec<(String, String)>)>) -> Seq<
    (FunctionID, Seq<(Name, Name)>),
> {
    Seq::new(s.len(), |i: int| (s[i].0, name_pairs(s[i].1@)))
}

/// What a list of named identifiers holds.
pub open spec fn override_views(s: Seq<(ModuleID, String)>) -> Seq<(ModuleID, Name)> {
    Seq::new(s.len(), |i: int| (s[i].0, s[i].1@))
}

/// What a list of marker lists holds.
pub open spec fn marker_views(s: Seq<(FunctionID, Vec<(Type, Type)>)>) -> Seq<
    (FunctionID, Seq<(Ty, Ty)>),
> {
    Seq::new(s.len(), |i: int| (s[i].0, type_pairs(s[i].1@)))
}

/// What a list of index lists holds.
pub open spec fn index_views(s: Seq<(FunctionID, Vec<usize>)>) -> Seq<(FunctionID, Seq<usize>)> {
    Seq::new(s.len(), |i: int| (s[i].0, s[i].1@))
}

impl Program {
    /// What the program holds.
    pub open spec fn view(&self) -> Prog {
        Prog {
            functions: Function::views(self.functions@),
            structs: Struct::views(self.structs@),
            modules: Module::views(self.modules@),
            loop_inv_hyps: hyp_views(self.loop_inv_hyps@),
            loop_invariants: keyed_views(self.loop_invariants@),
            loop_inv_entry_impls: crate::ir::names(self.loop_inv_entry_impls@),
            fn_proof_params: param_list_views(self.fn_proof_params@),
            callee_requires_impls: self.callee_requires_impls@,
            callee_requires_precond_callers: self.callee_requires_precond_callers@,
            namespace_overrides: override_views(self.namespace_overrides@),
            decls: self.lean_termination_decls@,
            ghost_native_seed: marker_views(self.ghost_native_seed@),
            ghost_vars: marker_views(self.ghost_vars@),
            fn_hascode_params: index_views(self.fn_hascode_params@),
            fn_bagu_params: index_views(self.fn_bagu_params@),
            world_functions: self.world_functions,
            typed_map_functions: self.typed_map_functions,
            aborts_bundles: AbortsBundle::views(self.aborts_bundles@),
            ensures_bundles: AbortsBundle::views(self.ensures_bundles@),
            aborts_decompositions: self.aborts_decompositions@,
            frame_lemmas: FrameLemmaSet::views(self.frame_lemmas@),
        }
    }
}

impl Prog {
    /// Whether the program has the function.
    pub open spec fn has(self, id: FunctionID) -> bool {
        slot(self.functions, id) is Some
    }

    /// The function with the identifier.
    pub open spec fn func(self, id: FunctionID) -> Func {
        lookup(self.functions, id)->0
    }

    /// Whether the program has the module.
    pub open spec fn has_module(self, id: ModuleID) -> bool {
        slot(self.modules, id) is Some
    }

    /// The module with the identifier.
    pub open spec fn module(self, id: ModuleID) -> ModuleOf {
        lookup(self.modules, id)->0
    }

    /// Whether the program has the structure.
    pub open spec fn has_struct(self, id: StructID) -> bool {
        slot(self.structs, id) is Some
    }

    /// The structure with the identifier.
    pub open spec fn structure(self, id: StructID) -> StructOf {
        lookup(self.structs, id)->0
    }

    /// Whether each function's module exists.
    pub open spec fn modules_resolve(self) -> bool {
        forall|i: int|
            0 <= i < self.functions.len() ==> self.has_module(
                (#[trigger] self.functions[i]).1.module_id,
            )
    }

    /// Whether each function that a body calls exists.
    pub open spec fn calls_resolve(self) -> bool {
        forall|i: int, g: FunctionID|
            0 <= i < self.functions.len() && #[trigger] self.functions[i].1.body.calls(g)
                ==> self.has(g)
    }

    /// Whether modules and calls resolve: each function's module exists, and so does each
    /// function that a body calls.
    pub open spec fn linked(self) -> bool {
        self.modules_resolve() && self.calls_resolve()
    }

    /// The program with the invariant hypothesis `hinv` on a function.
    pub open spec fn with_hyp(self, id: FunctionID, hook: Name) -> Prog {
        Prog { loop_inv_hyps: stored(self.loop_inv_hyps, id, ("hinv"@, hook)), ..self }
    }

    /// The program with a loop helper recorded for a function name, unless one is.
    pub open spec fn with_invariant(self, base: Name, id: FunctionID) -> Prog {
        if exists|i: int|
            0 <= i < self.loop_invariants.len() && (#[trigger] self.loop_invariants[i]).0
                == base {
            self
        } else {
            Prog { loop_invariants: self.loop_invariants.push((base, id)), ..self }
        }
    }

    /// The program with a name among those of functions that take an entry proof.
    pub open spec fn with_entry_impl(self, name: Name) -> Prog {
        if self.loop_inv_entry_impls.contains(name) {
            self
        } else {
            Prog { loop_inv_entry_impls: self.loop_inv_entry_impls.push(name), ..self }
        }
    }

    /// The proof parameters recorded for a function.
    pub open spec fn proof_params_of(self, id: FunctionID) -> Seq<(Name, Name)> {
        match lookup(self.fn_proof_params, id) {
            Some(s) => s,
            None => Seq::empty(),
        }
    }

    /// The program with one more proof parameter recorded for a function.
    pub open spec fn with_proof_param(self, id: FunctionID, name: Name, prop: Name) -> Prog {
        Prog {
            fn_proof_params: stored(
                self.fn_proof_params,
                id,
                self.proof_params_of(id).push((name, prop)),
            ),
            ..self
        }
    }

    /// The program with another body for a function.
    pub open spec fn with_body(self, id: FunctionID, body: Node) -> Prog {
        Prog { functions: stored(self.functions, id, Func { body, ..self.func(id) }), ..self }
    }
}

impl Program {
    /// The position of a function.
    pub fn function_slot(&self, id: FunctionID) -> (r: Option<usize>)
        ensures
            match r {
                Some(i) => i < self.functions@.len() && slot(self@.functions, id) == Some(i as int)
                    && self@.has(id) && self@.func(id) == self.functions@[i as int].1@,
                None => !self@.has(id),
            },
    {
        proof {
            lemma_same_slots(self.functions@, self@.functions, id);
        }
        slot_of(&self.functions, id)
    }

    /// The function with the identifier.
    pub fn function(&self, id: FunctionID) -> (r: &Function)
        requires
            self@.has(id),
        ensures
            r@ == self@.func(id),
    {
        match self.function_slot(id) {
            Some(i) => &self.functions[i].1,
            None => &self.functions[0].1,
        }
    }

    /// The module with the identifier.
    pub fn module(&self, id: ModuleID) -> (r: &Module)
        requires
            self@.has_module(id),
        ensures
            r@ == self@.module(id),
    {
        proof {
            lemma_same_slots(self.modules@, self@.modules, id);
        }
        match slot_of(&self.modules, id) {
            Some(i) => &self.modules[i].1,
            None => &self.modules[0].1,
        }
    }

    /// The structure with the identifier.
    pub fn structure(&self, id: StructID) -> (r: &Struct)
        requires
            self@.has_struct(id),
        ensures
            r@ == self@.structure(id),
    {
        proof {
            lemma_same_slots(self.structs@, self@.structs, id);
        }
        match slot_of(&self.structs, id) {
            Some(i) => &self.structs[i].1,
            None => &self.structs[0].1,
        }
    }

    /// Puts the invariant hypothesis `hinv` on a function.
    pub fn add_hyp(&mut self, id: FunctionID, hook: String)
        ensures
            final(self)@ == old(self)@.with_hyp(id, hook@),
    {
        let ghost before = *self;
        proof {
            lemma_same_slots(self.loop_inv_hyps@, self@.loop_inv_hyps, id);
        }
        let hyp = LoopInvHyp { hyp_param: "hinv".to_owned(), hook_name: hook };
        match slot_of(&self.loop_inv_hyps, id) {
            Some(i) => {
                self.loop_inv_hyps[i].1 = hyp;
            },
            None => {
                self.loop_inv_hyps.push((id, hyp));
            },
        }
        assert(self@.loop_inv_hyps =~= before@.with_hyp(id, hook@).loop_inv_hyps);
        assert(self@ =~= before@.with_hyp(id, hook@));
    }

    /// Whether a function carries an invariant hypothesis.
    pub fn has_hyp(&self, id: FunctionID) -> (r: bool)
        ensures
            r == (slot(self@.loop_inv_hyps, id) is Some),
    {
        proof {
            lemma_same_slots(self.loop_inv_hyps@, self@.loop_inv_hyps, id);
        }
        slot_of(&self.loop_inv_hyps, id).is_some()
    }

    /// Records a loop helper for a function name, unless one is.
    pub fn add_invariant(&mut self, base: String, id: FunctionID)
        ensures
            final(self)@ == old(self)@.with_invariant(base@, id),
    {
        let ghost before = *self;
        let mut i: usize = 0;
        while i < self.loop_invariants.len()
            invariant
                i <= self.loop_invariants.len(),
                *self == before,
                forall|j: int| 0 <= j < i ==> (#[trigger] self.loop_invariants@[j]).0@ != base@,
            decreases self.loop_invariants.len() - i,
        {
            if self.loop_invariants[i].0 == base {
                assert(self@.loop_invariants[i as int].0 == base@);
                return;
            }
            i += 1;
        }
        assert(forall|j: int|
            0 <= j < self@.loop_invariants.len() ==> (#[trigger] self@.loop_invariants[j]).0
                != base@);
        self.loop_invariants.push((base, id));
        assert(self@.loop_invariants =~= before@.loop_invariants.push((base@, id)));
        assert(self@ =~= before@.with_invariant(base@, id));
    }

    /// Adds a name to those of functions that take an entry proof.
    pub fn add_entry_impl(&mut self, name: &String)
        ensures
            final(self)@ == old(self)@.with_entry_impl(name@),
    {
        let ghost before = *self;
        push_name(&mut self.loop_inv_entry_impls, name);
        assert(self@ =~= before@.with_entry_impl(name@));
    }

    /// Records one more proof parameter for a function.
    pub fn add_proof_param(&mut self, id: FunctionID, name: String, prop: String)
        ensures
            final(self)@ == old(self)@.with_proof_param(id, name@, prop@),
    {
        let ghost before = *self;
        let ghost goal = before@.with_proof_param(id, name@, prop@);
        proof {
            lemma_same_slots(self.fn_proof_params@, self@.fn_proof_params, id);
        }
        match slot_of(&self.fn_proof_params, id) {
            Some(i) => {
                let ghost list = self.fn_proof_params@[i as int].1@;
                self.fn_proof_params[i].1.push((name, prop));
                assert(name_pairs(self.fn_proof_params@[i as int].1@) =~= name_pairs(list).push(
                    (name@, prop@),
                ));
            },
            None => {
                let mut list: Vec<(String, String)> = Vec::new();
                list.push((name, prop));
                assert(name_pairs(list@) =~= Seq::<(Name, Name)>::empty().push((name@, prop@)));
                self.fn_proof_params.push((id, list));
            },
        }
        assert(self@.fn_proof_params =~= goal.fn_proof_params);
        assert(self@ =~= goal);
    }

    /// Gives a function another body.
    pub fn set_body(&mut self, id: FunctionID, body: IRNode)
        requires
            old(self)@.has(id),
        ensures
            final(self)@ == old(self)@.with_body(id, body@),
    {
        let ghost before = *self;
        match self.function_slot(id) {
            Some(i) => {
                self.functions[i].1.body = body;
                proof {
                    assert(self@.functions =~= before@.with_body(id, body@).functions);
                    assert(self@ =~= before@.with_body(id, body@));
                }
            },
            None => {},
        }
    }
}

impl Prog {
    /// The program with another body for a function, if it has that function.
    pub open spec fn with_body_of(self, id: FunctionID, body: Node) -> Prog {
        if self.has(id) {
            self.with_body(id, body)
        } else {
            self
        }
    }

    /// A program with nothing in it.
    pub open spec fn nothing() -> Prog {
        Prog {
            functions: Seq::empty(),
            structs: Seq::empty(),
            modules: Seq::empty(),
            loop_inv_hyps: Seq::empty(),
            loop_invariants: Seq::empty(),
            loop_inv_entry_impls: Seq::empty(),
            fn_proof_params: Seq::empty(),
            callee_requires_impls: Seq::empty(),
            callee_requires_precond_callers: Seq::empty(),
            namespace_overrides: Seq::empty(),
            decls: Decls {
                loop_hyp: Seq::empty(),
                precond: Seq::empty(),
                termination: Seq::empty(),
                module_options: Seq::empty(),
            },
            ghost_native_seed: Seq::empty(),
            ghost_vars: Seq::empty(),
            fn_hascode_params: Seq::empty(),
            fn_bagu_params: Seq::empty(),
            world_functions: None,
            typed_map_functions: None,
            aborts_bundles: Seq::empty(),
            ensures_bundles: Seq::empty(),
            aborts_decompositions: Seq::empty(),
            frame_lemmas: Seq::empty(),
        }
    }
}

impl Program {
    /// Gives a function another body, if there is that function.
    pub fn put_body(&mut self, id: FunctionID, body: IRNode)
        ensures
            final(self)@ == old(self)@.with_body_of(id, body@),
    {
        if self.function_slot(id).is_some() {
            self.set_body(id, body);
        }
    }

    /// A program without anything.
    pub fn empty() -> (r: Program)
        ensures
            r@ == Prog::nothing(),
    {
        let r = Program {
            functions: Vec::new(),
            structs: Vec::new(),
            modules: Vec::new(),
            loop_inv_hyps: Vec::new(),
            loop_invariants: Vec::new(),
            loop_inv_entry_impls: Vec::new(),
            fn_proof_params: Vec::new(),
            callee_requires_impls: Vec::new(),
            callee_requires_precond_callers: Vec::new(),
            namespace_overrides: Vec::new(),
            lean_termination_decls: TerminationDecls {
                loop_hyp: Vec::new(),
                precond: Vec::new(),
                termination: Vec::new(),
                module_options: Vec::new(),
            },
            ghost_native_seed: Vec::new(),
            ghost_vars: Vec::new(),
            fn_hascode_params: Vec::new(),
            fn_bagu_params: Vec::new(),
            world_functions: None,
            typed_map_functions: None,
            aborts_bundles: Vec::new(),
            ensures_bundles: Vec::new(),
            aborts_decompositions: Vec::new(),
            frame_lemmas: Vec::new(),
        };
        let ghost empty = Prog::nothing();
        assert(r@.functions =~= empty.functions);
        assert(r@.structs =~= empty.structs);
        assert(r@.modules =~= empty.modules);
        assert(r@.loop_inv_hyps =~= empty.loop_inv_hyps);
        assert(r@.loop_invariants =~= empty.loop_invariants);
        assert(r@.loop_inv_entry_impls =~= empty.loop_inv_entry_impls);
        assert(r@.fn_proof_params =~= empty.fn_proof_params);
        assert(r@.namespace_overrides =~= empty.namespace_overrides);
        assert(r@.decls.loop_hyp =~= empty.decls.loop_hyp);
        assert(r@.decls.precond =~= empty.decls.precond);
        assert(r@.decls.termination =~= empty.decls.termination);
        assert(r@.decls.module_options =~= empty.decls.module_options);
        assert(r@.ghost_native_seed =~= empty.ghost_native_seed);
        assert(r@.ghost_vars =~= empty.ghost_vars);
        assert(r@.fn_hascode_params =~= empty.fn_hascode_params);
        assert(r@.fn_bagu_params =~= empty.fn_bagu_params);
        assert(r@.aborts_bundles =~= empty.aborts_bundles);
        assert(r@.ensures_bundles =~= empty.ensures_bundles);
        assert(r@.frame_lemmas =~= empty.frame_lemmas);
        r
    }
}

} // verus!
