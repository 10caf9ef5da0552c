//! Stores: frame lemmas of a world, and dynamic fields as typed maps.

use theorem_format::dynamic_field_rewriting::{
    rewrite_dynamic_fields, rewrite_df_borrow_mut_pre_threading,
};
use theorem_format::frame_lemmas::{
    compute_frame_lemmas, find_frame_lemmas, DfPreserveOp, FrameProofNode, NoFrame,
};
use theorem_format::ir::{IRNode, WriteBackEdge};
use theorem_format::program::{
    FieldDef, Function, FunctionSignature, Module, Parameter, Program, Struct, WorldFunctions,
};
use theorem_format::types::Type;

fn var(x: &str) -> IRNode {
    IRNode::Var(x.to_string())
}

fn bind(names: &[&str], value: IRNode, body: IRNode) -> IRNode {
    IRNode::Let {
        pattern: names.iter().map(|n| n.to_string()).collect(),
        value: Box::new(value),
        body: Box::new(body),
    }
}

fn cond(c: IRNode, t: IRNode, e: IRNode) -> IRNode {
    IRNode::If { cond: Box::new(c), then_branch: Box::new(t), else_branch: Box::new(e) }
}

fn call(function: usize, type_args: Vec<Type>, args: Vec<IRNode>) -> IRNode {
    IRNode::Call { function, type_args, args }
}

fn module(name: &str) -> Module {
    Module {
        name: name.to_string(),
        package_name: "Package".to_string(),
        required_imports: vec![],
        is_native: false,
    }
}

fn of(id: usize) -> Type {
    Type::Struct { struct_id: id, type_args: vec![] }
}

fn function(module_id: usize, name: &str, params: &[(&str, Type)], ret: Type, body: IRNode) -> Function {
    Function {
        module_id,
        name: name.to_string(),
        signature: FunctionSignature {
            type_params: vec![],
            parameters: params
                .iter()
                .map(|(p, t)| Parameter {
                    name: p.to_string(),
                    param_type: t.clone(),
                    ssa_value: p.to_string(),
                })
                .collect(),
            proof_params: vec![],
            return_type: ret,
        },
        body,
        theorem: None,
        is_native: false,
        mutual_group_id: None,
        is_uninterpreted: false,
    }
}

fn has_body(p: &Program, id: usize, expected: IRNode) {
    for (k, f) in &p.functions {
        if *k == id {
            assert!(f.body.same(&expected), "{:?}", f.body);
            return;
        }
    }
    panic!("no function {}", id)
}

const SET_DF: usize = 101;
const PUT_OWNED: usize = 103;

fn world_program(functions: Vec<(usize, Function)>) -> Program {
    let mut p = Program::empty();
    p.modules = vec![(0, module("m")), (9, module("World"))];
    p.functions = functions;
    p.world_functions = Some(WorldFunctions {
        module_id: 9,
        world_struct: 50,
        set_df: SET_DF,
        erase_df: 102,
        put_owned: PUT_OWNED,
        put_shared: 104,
        put_frozen: 105,
        emit_event: 106,
        pfst: 107,
        psnd: 108,
    });
    p
}

fn key_value() -> Vec<Type> {
    vec![Type::UInt(64), Type::Bool]
}

fn store() -> Function {
    function(
        0,
        "store",
        &[
            ("uid", Type::UInt(64)),
            ("k", Type::UInt(64)),
            ("v", Type::Bool),
            ("__world", of(50)),
        ],
        of(50),
        bind(
            &["__world"],
            call(SET_DF, key_value(), vec![var("__world"), var("uid"), var("k"), var("v")]),
            var("__world"),
        ),
    )
}

fn caller() -> Function {
    function(
        0,
        "caller",
        &[("a", Type::UInt(64)), ("b", Type::Bool), ("__world", of(50))],
        of(50),
        call(1, vec![], vec![var("a"), var("a"), var("b"), var("__world")]),
    )
}

fn names(ps: &Vec<Parameter>) -> Vec<String> {
    ps.iter().map(|q| q.name.clone()).collect()
}

#[test]
fn a_store_frames_its_key() {
    let mut p = world_program(vec![(1, store())]);
    compute_frame_lemmas(&mut p);
    assert_eq!(p.frame_lemmas.len(), 1);
    let set = &p.frame_lemmas[0];
    assert_eq!(set.fn_id, 1);
    assert!(!set.world_proj_snd);
    assert_eq!(names(&set.footprint_params), vec!["uid".to_string(), "k".to_string()]);
    match &set.proof {
        FrameProofNode::SetDf { key_ty, val_ty, uid, key } => {
            assert!(key_ty.same(&Type::UInt(64)));
            assert!(val_ty.same(&Type::Bool));
            assert!(uid.same(&var("uid")));
            assert!(key.same(&var("k")));
        }
        other => panic!("{:?}", other),
    }
    assert!(!set.proof.footprint_is_empty());
}

#[test]
fn callees_are_framed_before_their_callers() {
    let mut p = world_program(vec![(2, caller()), (1, store())]);
    compute_frame_lemmas(&mut p);
    let order: Vec<usize> = p.frame_lemmas.iter().map(|s| s.fn_id).collect();
    assert_eq!(order, vec![1, 2]);
    assert_eq!(names(&p.frame_lemmas[1].footprint_params), vec!["a".to_string()]);
    match &p.frame_lemmas[1].proof {
        FrameProofNode::Callee { function, args, .. } => {
            assert_eq!(*function, 1);
            assert_eq!(args.len(), 3);
            assert!(args[2].same(&var("b")));
        }
        other => panic!("{:?}", other),
    }
}

#[test]
fn branches_and_preserving_operations_are_framed() {
    let both = function(
        0,
        "both",
        &[("c", Type::Bool), ("o", of(7)), ("__world", of(50))],
        Type::Tuple(vec![Type::Bool, of(50)]),
        cond(
            var("c"),
            bind(
                &["__world"],
                call(PUT_OWNED, vec![of(7)], vec![var("__world"), var("o")]),
                IRNode::Tuple(vec![var("c"), var("__world")]),
            ),
            IRNode::Tuple(vec![var("c"), var("__world")]),
        ),
    );
    let mut p = world_program(vec![(3, both)]);
    compute_frame_lemmas(&mut p);
    assert_eq!(p.frame_lemmas.len(), 1);
    let set = &p.frame_lemmas[0];
    assert!(set.world_proj_snd);
    assert!(set.footprint_params.is_empty());
    assert!(set.proof.footprint_is_empty());
    match &set.proof {
        FrameProofNode::ItePair(t, e) => {
            assert!(matches!(
                **t,
                FrameProofNode::DfPreserve { op: DfPreserveOp::PutOwned, .. }
            ));
            assert!(matches!(**e, FrameProofNode::Refl));
        }
        other => panic!("{:?}", other),
    }
}

#[test]
fn functions_that_cannot_be_framed_are_left_out() {
    let local = function(
        0,
        "local",
        &[("v", Type::Bool), ("__world", of(50))],
        of(50),
        bind(
            &["__world"],
            call(SET_DF, key_value(), vec![var("__world"), var("free"), var("v"), var("v")]),
            var("__world"),
        ),
    );
    let caller_of_it = function(
        0,
        "user",
        &[("v", Type::Bool), ("__world", of(50))],
        of(50),
        call(4, vec![], vec![var("v"), var("__world")]),
    );
    let mut p = world_program(vec![(4, local), (5, caller_of_it)]);
    let missing = find_frame_lemmas(&mut p);
    assert!(p.frame_lemmas.is_empty());
    assert_eq!(missing.len(), 2);
    assert!(missing.contains(&(4, NoFrame::MentionsLocals)));
    assert!(missing.contains(&(5, NoFrame::CalleeWithout)));
    let mut q = world_program(vec![(1, store())]);
    q.world_functions = None;
    compute_frame_lemmas(&mut q);
    assert!(q.frame_lemmas.is_empty());
}

#[test]
fn a_function_that_calls_itself_says_why_it_has_no_frame() {
    let again = function(
        0,
        "again",
        &[("__world", of(50))],
        of(50),
        call(1, vec![], vec![var("__world")]),
    );
    let mut p = world_program(vec![(1, again)]);
    let missing = find_frame_lemmas(&mut p);
    assert!(p.frame_lemmas.is_empty());
    assert_eq!(missing, vec![(1, NoFrame::Recursive)]);
    let mut q = world_program(vec![(1, store())]);
    assert!(find_frame_lemmas(&mut q).is_empty());
    assert_eq!(q.frame_lemmas.len(), 1);
}

#[test]
fn preserving_operations_name_their_lemmas() {
    assert_eq!(DfPreserveOp::PutOwned.wrapper_lemma(), "World.frame_putOwned");
    assert_eq!(DfPreserveOp::PutShared.wrapper_lemma(), "World.frame_putShared");
    assert_eq!(DfPreserveOp::PutFrozen.wrapper_lemma(), "World.frame_putFrozen");
    assert_eq!(DfPreserveOp::EmitEvent.wrapper_lemma(), "World.frame_emitEvent");
}

fn field(s: usize, i: usize, base: IRNode) -> IRNode {
    IRNode::Field { struct_id: s, field_index: i, base: Box::new(base) }
}

fn update(s: usize, i: usize, base: IRNode, value: IRNode) -> IRNode {
    IRNode::UpdateField {
        base: Box::new(base),
        struct_id: s,
        field_index: i,
        value: Box::new(value),
    }
}

fn field_program(body: IRNode) -> Program {
    let mut p = Program::empty();
    p.modules = vec![(0, module("m")), (1, module("dynamic_field"))];
    let pairs = Type::Vector(Box::new(Type::Tuple(vec![Type::UInt(64), Type::Bool])));
    p.structs = vec![(3, Struct {
        module_id: 0,
        name: "Table".to_string(),
        type_params: vec![],
        fields: vec![
            FieldDef { name: "id".to_string(), field_type: Type::Address },
            FieldDef { name: "dynamic_fields".to_string(), field_type: pairs },
        ],
        variants: None,
        mutual_group_id: None,
    })];
    let native = |name: &str| {
        let mut f = function(1, name, &[], Type::Bool, IRNode::Tuple(vec![]));
        f.is_native = true;
        f
    };
    p.functions = vec![
        (1, native("add")),
        (2, native("remove")),
        (3, native("borrow")),
        (4, native("borrow_mut")),
        (5, native("exists_")),
        (10, function(0, "f", &[("t", of(3)), ("k", Type::UInt(64))], Type::Bool, body)),
    ];
    p
}

#[test]
fn reads_of_dynamic_fields_read_the_map() {
    let mut p = field_program(bind(
        &["u"],
        field(3, 0, var("t")),
        bind(
            &["b"],
            call(5, vec![Type::UInt(64)], vec![var("u"), var("k")]),
            call(3, key_value(), vec![field(3, 0, var("t")), var("k")]),
        ),
    ));
    rewrite_dynamic_fields(&mut p);
    let map = p.typed_map_functions.unwrap();
    assert_eq!(map.module_id, 1001);
    has_body(
        &p,
        10,
        bind(
            &["u"],
            field(3, 0, var("t")),
            bind(
                &["b"],
                call(map.has_id, key_value(), vec![field(3, 1, var("t")), var("k")]),
                call(map.get_id, key_value(), vec![field(3, 1, var("t")), var("k")]),
            ),
        ),
    );
    assert_eq!(p.modules.len(), 3);
    assert!(p.functions.iter().any(|(id, f)| *id == map.set_id && f.name == "set" && f.is_native));
}

#[test]
fn an_added_field_is_written_to_the_map() {
    let back = IRNode::WriteBack {
        child: "r".to_string(),
        parent: "t".to_string(),
        edge: WriteBackEdge::Direct,
    };
    let mut p = field_program(bind(
        &["r"],
        call(1, key_value(), vec![var("t"), var("k"), var("v")]),
        bind(&[], back, var("t")),
    ));
    rewrite_dynamic_fields(&mut p);
    let map = p.typed_map_functions.unwrap();
    has_body(
        &p,
        10,
        bind(
            &["r"],
            call(map.set_id, key_value(), vec![field(3, 1, var("t")), var("k"), var("v")]),
            bind(&["t"], update(3, 1, var("t"), var("r")), var("t")),
        ),
    );
}

#[test]
fn a_removed_field_drops_its_write_back() {
    let back = IRNode::WriteBack {
        child: "r".to_string(),
        parent: "t".to_string(),
        edge: WriteBackEdge::Direct,
    };
    let mut p = field_program(bind(
        &["v", "r"],
        call(2, key_value(), vec![var("t"), var("k")]),
        bind(
            &["t"],
            update(3, 0, var("t"), var("r")),
            bind(&[], back, var("t")),
        ),
    ));
    rewrite_dynamic_fields(&mut p);
    let map = p.typed_map_functions.unwrap();
    has_body(
        &p,
        10,
        bind(
            &["v", "r"],
            call(map.erase_id, key_value(), vec![field(3, 1, var("t")), var("k")]),
            bind(&["t"], update(3, 1, var("t"), var("r")), var("t")),
        ),
    );
}

#[test]
fn a_mutable_borrow_reads_and_writes_the_map() {
    let borrowed = |param: &str| IRNode::MutableBorrow {
        val_expr: Box::new(field(3, 0, var("t"))),
        reconstruct_param: param.to_string(),
        reconstruct_expr: Box::new(update(3, 0, var("t"), var(param))),
        state_type: of(3),
    };
    let mut p = field_program(bind(
        &["n", "r"],
        call(4, key_value(), vec![borrowed("__x"), var("k")]),
        bind(&["t"], update(3, 0, var("t"), var("r")), var("n")),
    ));
    rewrite_df_borrow_mut_pre_threading(&mut p);
    let map = p.typed_map_functions.unwrap();
    let there = || field(3, 1, var("t"));
    has_body(
        &p,
        10,
        bind(
            &["n"],
            IRNode::MutableBorrow {
                val_expr: Box::new(call(map.get_id, key_value(), vec![there(), var("k")])),
                reconstruct_param: "__v".to_string(),
                reconstruct_expr: Box::new(update(
                    3,
                    1,
                    var("t"),
                    call(map.set_id, key_value(), vec![there(), var("k"), var("__v")]),
                )),
                state_type: of(3),
            },
            var("n"),
        ),
    );
    let before = p.functions.len();
    rewrite_dynamic_fields(&mut p);
    assert_eq!(p.functions.len(), before);
    assert_eq!(p.typed_map_functions.unwrap().get_id, map.get_id);
}

#[test]
fn without_dynamic_fields_nothing_is_made() {
    let mut p = field_program(var("k"));
    p.modules[1].1.name = "other".to_string();
    rewrite_df_borrow_mut_pre_threading(&mut p);
    rewrite_dynamic_fields(&mut p);
    assert!(p.typed_map_functions.is_none());
    assert_eq!(p.modules.len(), 2);
}
