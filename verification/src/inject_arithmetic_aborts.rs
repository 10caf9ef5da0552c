//! Derivation of the abort companions.
//!
//! The companion `f.aborts` of a function `f` says how a call of `f` aborts: it
//! evaluates to `none`, or to the first abort in evaluation order. This pass
//! derives it from the body of `f`: explicit aborts, arithmetic that overflows,
//! divides by zero, shifts too far or casts to too small a width, and the
//! aborts of the functions that `f` calls.

use crate::ir::{AbortSource, BinOp, Const, IRNode, Lit, Node, UnOp};
use crate::program::{Func, Function, Prog, Program};
use crate::scope::{optional_ty, VariableRegistry};
use crate::text::{append, has_text, strip_end};
use crate::threading::{select, Pick};
use crate::traverse::{any_node, calls_function, contains_id, free_vars, name_is, Test};
use crate::types::{clone_types, FunctionID, ModuleID, Name, TempId, Ty, Type};
use crate::word::{power_of_two, Word};
use vstd::arithmetic::power2::*;
use vstd::prelude::*;

verus! {

/// The literal zero of 64 bits, the code of an abort that has none.
pub open spec fn zero_code() -> Node {
    Node::Const(Lit::UInt { bits: 64, value: 0 })
}

/// The abort of an arithmetic operation.
pub open spec fn arithmetic_abort() -> Node {
    Node::OptionSome(
        Box::new(
            Node::MoveAbortValue { source: AbortSource::Arithmetic, code: Box::new(zero_code()) },
        ),
    )
}

/// The abort of an assertion with the code.
pub open spec fn assertion_abort(code: Node) -> Node {
    Node::OptionSome(
        Box::new(Node::MoveAbortValue { source: AbortSource::UserAssert, code: Box::new(code) }),
    )
}

/// The first abort of two in evaluation order.
pub open spec fn or_else(first: Node, second: Node) -> Node {
    Node::MatchOption {
        scrutinee: Box::new(first),
        binding: "__abort"@,
        some_branch: Box::new(Node::OptionSome(Box::new(Node::Var("__abort"@)))),
        none_branch: Box::new(second),
    }
}

/// The first abort of two in evaluation order, without a half that never aborts.
pub open spec fn chained(first: Node, second: Node) -> Node {
    if first is OptionNone {
        second
    } else if second is OptionNone {
        first
    } else {
        or_else(first, second)
    }
}

/// An arithmetic abort where the condition holds.
pub open spec fn abort_if(cond: Node) -> Node {
    Node::If {
        cond: Box::new(cond),
        then_branch: Box::new(arithmetic_abort()),
        else_branch: Box::new(Node::OptionNone),
    }
}

/// How a binary operation itself aborts, given the types of its operands.
pub open spec fn binop_check(
    op: BinOp,
    lhs: Node,
    rhs: Node,
    lhs_type: Option<Ty>,
    rhs_type: Option<Ty>,
) -> Node {
    match op {
        BinOp::Add => abort_if(
            Node::ArithOverflowCheck { op, lhs: Box::new(lhs), rhs: Box::new(rhs) },
        ),
        BinOp::Sub => abort_if(
            Node::ArithOverflowCheck { op, lhs: Box::new(lhs), rhs: Box::new(rhs) },
        ),
        BinOp::Mul => abort_if(
            Node::ArithOverflowCheck { op, lhs: Box::new(lhs), rhs: Box::new(rhs) },
        ),
        BinOp::Div => zero_divisor_check(rhs, lhs_type),
        BinOp::Mod => zero_divisor_check(rhs, lhs_type),
        BinOp::Shl => shift_check(rhs, lhs_type, rhs_type),
        BinOp::Shr => shift_check(rhs, lhs_type, rhs_type),
        _ => Node::OptionNone,
    }
}

/// An abort where the divisor of a number of the given type is zero.
pub open spec fn zero_divisor_check(rhs: Node, lhs_type: Option<Ty>) -> Node {
    match lhs_type {
        Some(Ty::UInt(bits)) => abort_if(
            Node::BinOp {
                op: BinOp::Eq,
                lhs: Box::new(rhs),
                rhs: Box::new(Node::Const(Lit::UInt { bits: bits as usize, value: 0 })),
            },
        ),
        _ => Node::OptionNone,
    }
}

/// An abort where a shift distance reaches the width of the shifted number. A
/// distance cannot reach 256.
pub open spec fn shift_check(rhs: Node, lhs_type: Option<Ty>, rhs_type: Option<Ty>) -> Node {
    match (lhs_type, rhs_type) {
        (Some(Ty::UInt(width)), Some(Ty::UInt(bits))) => if width >= 256 {
            Node::OptionNone
        } else {
            abort_if(
                Node::BinOp {
                    op: BinOp::Ge,
                    lhs: Box::new(rhs),
                    rhs: Box::new(
                        Node::Const(Lit::UInt { bits: bits as usize, value: width as nat }),
                    ),
                },
            )
        },
        _ => Node::OptionNone,
    }
}

/// How a unary operation itself aborts, given the type of its operand: a cast to
/// a smaller width aborts where the number does not fit. Every number fits 256
/// bits.
pub open spec fn unop_check(op: UnOp, operand: Node, operand_type: Option<Ty>) -> Node {
    match (op, operand_type) {
        (UnOp::Cast(target), Some(Ty::UInt(source))) => if target >= source || target >= 256 {
            Node::OptionNone
        } else {
            abort_if(
                Node::BinOp {
                    op: BinOp::Ge,
                    lhs: Box::new(operand),
                    rhs: Box::new(
                        Node::Const(
                            Lit::UInt { bits: source as usize, value: pow2(target as nat) },
                        ),
                    ),
                },
            )
        },
        _ => Node::OptionNone,
    }
}

/// The last of the chosen functions.
pub open spec fn last_named(p: Prog, module: ModuleID, name: Name) -> Option<FunctionID> {
    let ids = crate::threading::selected(p.functions, is_named(module, name));
    if ids.len() > 0 {
        Some(ids.last())
    } else {
        None
    }
}

/// Whether a function stands in the module under the name.
pub open spec fn is_named(module: ModuleID, name: Name) -> spec_fn(FunctionID, Func) -> bool {
    |id: FunctionID, f: Func| f.module_id == module && f.name == name
}

/// Whether a name is that of an abort companion.
pub open spec fn aborts_name(name: Name) -> bool {
    crate::text::occurs(name, ".aborts"@)
}

/// Whether a function is an abort companion that the pass derives.
pub open spec fn is_derived() -> spec_fn(FunctionID, Func) -> bool {
    |id: FunctionID, f: Func| aborts_name(f.name) && !f.is_native
}

/// The abort companions that the pass derives.
pub open spec fn derived_ids(p: Prog) -> Seq<FunctionID> {
    crate::threading::selected(p.functions, is_derived())
}

/// The abort companion that a call of the function consults: none for a
/// companion itself, and none where a native companion never aborts.
pub open spec fn companion_of(p: Prog, id: FunctionID) -> Option<FunctionID> {
    if p.has(id) && !aborts_name(p.func(id).name) {
        match last_named(p, p.func(id).module_id, p.func(id).name + ".aborts"@) {
            Some(a) => if p.func(a).is_native && p.func(a).body == Node::Const(
                Lit::Bool(false),
            ) {
                None
            } else {
                Some(a)
            },
            None => None,
        }
    } else {
        None
    }
}

/// How a call of a function aborts: as its companion says. A companion, and a
/// function in `skip`, is not consulted.
pub open spec fn callee_check(
    p: Prog,
    skip: Seq<FunctionID>,
    function: FunctionID,
    type_args: Seq<Ty>,
    args: Seq<Node>,
) -> Node {
    if derived_ids(p).contains(function) || skip.contains(function) {
        Node::OptionNone
    } else {
        match companion_of(p, function) {
            Some(a) => or_else(
                Node::Call { function: a, type_args, args },
                Node::OptionNone,
            ),
            None => Node::OptionNone,
        }
    }
}

/// The first abort in the evaluation of an expression.
pub open spec fn first_abort(
    n: Node,
    vars: crate::scope::Vars,
    p: Prog,
    skip: Seq<FunctionID>,
) -> Node
    decreases n,
{
    match n {
        Node::BinOp { op, lhs, rhs } => chained(
            first_abort(*lhs, vars, p, skip),
            chained(
                first_abort(*rhs, vars, p, skip),
                binop_check(
                    op,
                    *lhs,
                    *rhs,
                    crate::scope::type_of(*lhs, vars, p),
                    crate::scope::type_of(*rhs, vars, p),
                ),
            ),
        ),
        Node::UnOp { op, operand } => chained(
            first_abort(*operand, vars, p, skip),
            unop_check(op, *operand, crate::scope::type_of(*operand, vars, p)),
        ),
        Node::Call { function, type_args, args } => chained(
            first_abort_among(args, vars, p, skip, true),
            callee_check(p, skip, function, type_args, args),
        ),
        Node::Pack { fields, .. } => first_abort_among(fields, vars, p, skip, false),
        Node::Field { base, .. } => first_abort(*base, vars, p, skip),
        Node::Unpack { value, .. } => first_abort(*value, vars, p, skip),
        Node::Tuple(elems) => first_abort_among(elems, vars, p, skip, false),
        Node::Let { pattern, value, body } => chained(
            first_abort(*value, vars, p, skip),
            Node::Let {
                pattern,
                value,
                body: Box::new(
                    first_abort(
                        *body,
                        crate::scope::bound(
                            vars,
                            pattern,
                            crate::scope::type_of(*value, vars, p),
                        ),
                        p,
                        skip,
                    ),
                ),
            },
        ),
        Node::If { cond, then_branch, else_branch } => chained(
            first_abort(*cond, vars, p, skip),
            Node::If {
                cond,
                then_branch: Box::new(first_abort(*then_branch, vars, p, skip)),
                else_branch: Box::new(first_abort(*else_branch, vars, p, skip)),
            },
        ),
        Node::Match { scrutinee, cases } => chained(
            first_abort(*scrutinee, vars, p, skip),
            Node::Match {
                scrutinee,
                cases: first_abort_cases(
                    cases,
                    crate::scope::type_of(*scrutinee, vars, p),
                    vars,
                    p,
                    skip,
                ),
            },
        ),
        Node::MatchOption { scrutinee, binding, some_branch, none_branch } => chained(
            first_abort(*scrutinee, vars, p, skip),
            Node::MatchOption {
                scrutinee,
                binding,
                some_branch: Box::new(
                    first_abort(
                        *some_branch,
                        vars.push((binding, Ty::TypeParameter(0))),
                        p,
                        skip,
                    ),
                ),
                none_branch: Box::new(first_abort(*none_branch, vars, p, skip)),
            },
        ),
        Node::UpdateField { base, value, .. } => chained(
            first_abort(*base, vars, p, skip),
            first_abort(*value, vars, p, skip),
        ),
        Node::UpdateVec { base, index, value } => chained(
            first_abort(*base, vars, p, skip),
            chained(first_abort(*index, vars, p, skip), first_abort(*value, vars, p, skip)),
        ),
        Node::ReadRef(inner) => first_abort(*inner, vars, p, skip),
        Node::WriteRef { reference, value } => chained(
            first_abort(*reference, vars, p, skip),
            first_abort(*value, vars, p, skip),
        ),
        Node::MutableBorrow { val_expr, .. } => first_abort(*val_expr, vars, p, skip),
        Node::ToProp(inner) => first_abort(*inner, vars, p, skip),
        Node::ToBool(inner) => first_abort(*inner, vars, p, skip),
        Node::OptionSome(inner) => first_abort(*inner, vars, p, skip),
        Node::Abort { code } => assertion_abort(
            match code {
                Some(c) => *c,
                None => zero_code(),
            },
        ),
        _ => Node::OptionNone,
    }
}

/// The first abort in the evaluation of the expressions in order. Where they are
/// arguments, a bare abort among them stands for a proof and is passed over.
pub open spec fn first_abort_among(
    s: Seq<Node>,
    vars: crate::scope::Vars,
    p: Prog,
    skip: Seq<FunctionID>,
    arguments: bool,
) -> Node
    decreases s,
{
    if s.len() == 0 {
        Node::OptionNone
    } else {
        let before = first_abort_among(
            s.subrange(0, s.len() - 1),
            vars,
            p,
            skip,
            arguments,
        );
        if arguments && s[s.len() - 1] is Abort {
            before
        } else {
            chained(before, first_abort(s[s.len() - 1], vars, p, skip))
        }
    }
}

/// The first abort in each case of a match on a value of the type.
pub open spec fn first_abort_cases(
    cases: Seq<(usize, Seq<Name>, Node)>,
    scrutinee: Option<Ty>,
    vars: crate::scope::Vars,
    p: Prog,
    skip: Seq<FunctionID>,
) -> Seq<(usize, Seq<Name>, Node)>
    decreases cases,
{
    Seq::new(
        cases.len(),
        |i: int|
            if 0 <= i < cases.len() {
                (
                    cases[i].0,
                    cases[i].1,
                    first_abort(
                        cases[i].2,
                        crate::scope::case_vars(p, vars, scrutinee, cases[i].0, cases[i].1),
                        p,
                        skip,
                    ),
                )
            } else {
                arbitrary()
            },
    )
}

/// The literal zero of 64 bits.
fn zero_u64() -> (r: IRNode)
    ensures
        r@ == zero_code(),
{
    IRNode::Const(Const::UInt { bits: 64, value: Word::small(0) })
}

/// The abort of an arithmetic operation.
fn arith_some() -> (r: IRNode)
    ensures
        r@ == arithmetic_abort(),
{
    let code = zero_u64();
    let v = IRNode::MoveAbortValue { source: AbortSource::Arithmetic, code: Box::new(code) };
    assert(v@ == (Node::MoveAbortValue {
        source: AbortSource::Arithmetic,
        code: Box::new(zero_code()),
    }));
    IRNode::OptionSome(Box::new(v))
}

/// The abort of an assertion with the code.
fn user_assert_some(code: IRNode) -> (r: IRNode)
    ensures
        r@ == assertion_abort(code@),
{
    let v = IRNode::MoveAbortValue { source: AbortSource::UserAssert, code: Box::new(code) };
    assert(v@ == (Node::MoveAbortValue {
        source: AbortSource::UserAssert,
        code: Box::new(code@),
    }));
    IRNode::OptionSome(Box::new(v))
}

/// The first abort of two in evaluation order.
fn make_or_else(first: IRNode, second: IRNode) -> (r: IRNode)
    ensures
        r@ == or_else(first@, second@),
{
    let v = IRNode::Var("__abort".to_owned());
    assert(v@ == Node::Var("__abort"@));
    let some = IRNode::OptionSome(Box::new(v));
    assert(some@ == Node::OptionSome(Box::new(Node::Var("__abort"@))));
    IRNode::MatchOption {
        scrutinee: Box::new(first),
        binding: "__abort".to_owned(),
        some_branch: Box::new(some),
        none_branch: Box::new(second),
    }
}

/// The first abort of two in evaluation order, without a half that never aborts.
pub fn chain_option(first: IRNode, second: IRNode) -> (r: IRNode)
    ensures
        r@ == chained(first@, second@),
{
    match &first {
        IRNode::OptionNone => {
            return second;
        },
        _ => {},
    }
    match &second {
        IRNode::OptionNone => {
            return first;
        },
        _ => {},
    }
    make_or_else(first, second)
}

/// An arithmetic abort where the condition holds.
fn make_abort_if(cond: IRNode) -> (r: IRNode)
    ensures
        r@ == abort_if(cond@),
{
    let some = arith_some();
    let none = IRNode::OptionNone;
    assert(none@ == Node::OptionNone);
    IRNode::If {
        cond: Box::new(cond),
        then_branch: Box::new(some),
        else_branch: Box::new(none),
    }
}

/// How a binary operation itself aborts.
pub fn check_binop(op: BinOp, lhs: &IRNode, rhs: &IRNode, reg: &VariableRegistry) -> (r: IRNode)
    ensures
        r@ == binop_check(
            op,
            lhs@,
            rhs@,
            crate::scope::type_of(lhs@, reg@, reg.program@),
            crate::scope::type_of(rhs@, reg@, reg.program@),
        ),
{
    match op {
        BinOp::Add | BinOp::Sub | BinOp::Mul => make_abort_if(
            IRNode::ArithOverflowCheck {
                op,
                lhs: Box::new(lhs.clone()),
                rhs: Box::new(rhs.clone()),
            },
        ),
        BinOp::Div | BinOp::Mod => match lhs.get_type(reg) {
            Some(Type::UInt(bits)) => {
                let zero = IRNode::Const(
                    Const::UInt { bits: bits as usize, value: Word::small(0) },
                );
                assert(zero@ == Node::Const(Lit::UInt { bits: bits as usize, value: 0 }));
                make_abort_if(
                    IRNode::BinOp {
                        op: BinOp::Eq,
                        lhs: Box::new(rhs.clone()),
                        rhs: Box::new(zero),
                    },
                )
            },
            _ => IRNode::OptionNone,
        },
        BinOp::Shl | BinOp::Shr => {
            let lhs_type = lhs.get_type(reg);
            let rhs_type = rhs.get_type(reg);
            match (lhs_type, rhs_type) {
                (Some(Type::UInt(width)), Some(Type::UInt(bits))) => {
                    if width >= 256 {
                        IRNode::OptionNone
                    } else {
                        let limit = IRNode::Const(
                            Const::UInt { bits: bits as usize, value: Word::small(width as u64) },
                        );
                        assert(limit@ == Node::Const(
                            Lit::UInt { bits: bits as usize, value: width as nat },
                        ));
                        make_abort_if(
                            IRNode::BinOp {
                                op: BinOp::Ge,
                                lhs: Box::new(rhs.clone()),
                                rhs: Box::new(limit),
                            },
                        )
                    }
                },
                _ => IRNode::OptionNone,
            }
        },
        _ => IRNode::OptionNone,
    }
}

/// How a unary operation itself aborts.
pub fn check_unop(op: UnOp, operand: &IRNode, reg: &VariableRegistry) -> (r: IRNode)
    ensures
        r@ == unop_check(op, operand@, crate::scope::type_of(operand@, reg@, reg.program@)),
{
    match op {
        UnOp::Cast(target) => match operand.get_type(reg) {
            Some(Type::UInt(source)) => {
                if target >= source || target >= 256 {
                    IRNode::OptionNone
                } else {
                    let limit = IRNode::Const(
                        Const::UInt { bits: source as usize, value: power_of_two(target) },
                    );
                    assert(limit@ == Node::Const(
                        Lit::UInt { bits: source as usize, value: pow2(target as nat) },
                    ));
                    make_abort_if(
                        IRNode::BinOp {
                            op: BinOp::Ge,
                            lhs: Box::new(operand.clone()),
                            rhs: Box::new(limit),
                        },
                    )
                }
            },
            _ => IRNode::OptionNone,
        },
        _ => IRNode::OptionNone,
    }
}

/// The choice of the derived companions.
struct Derived;

impl Pick for Derived {
    closed spec fn picks(&self, id: FunctionID, f: Func) -> bool {
        is_derived()(id, f)
    }

    fn pick(&self, id: FunctionID, f: &Function) -> (r: bool) {
        has_text(f.name.as_str(), ".aborts") && !f.is_native
    }
}

/// The abort companions that the pass derives.
fn find_derived(program: &Program) -> (r: Vec<FunctionID>)
    ensures
        r@ == derived_ids(program@),
{
    let t = Derived;
    assert((|k: FunctionID, f: Func| t.picks(k, f)) =~= is_derived());
    select(program, &t)
}

/// The choice of the functions of a module with a name.
struct NamedIn<'a> {
    module: ModuleID,
    name: &'a String,
}

impl<'a> Pick for NamedIn<'a> {
    closed spec fn picks(&self, id: FunctionID, f: Func) -> bool {
        is_named(self.module, self.name@)(id, f)
    }

    fn pick(&self, id: FunctionID, f: &Function) -> (r: bool) {
        f.module_id == self.module && f.name == *self.name
    }
}

/// The last function of a module with the name.
fn find_last_named(program: &Program, module: ModuleID, name: &String) -> (r: Option<FunctionID>)
    ensures
        r == last_named(program@, module, name@),
        r matches Some(id) ==> program@.has(id),
{
    let t = NamedIn { module, name };
    assert((|k: FunctionID, f: Func| t.picks(k, f)) =~= is_named(module, name@));
    let ids = select(program, &t);
    if ids.len() > 0 {
        Some(ids[ids.len() - 1])
    } else {
        None
    }
}

/// The abort companion that a call of the function consults.
fn find_companion(program: &Program, id: FunctionID) -> (r: Option<FunctionID>)
    ensures
        r == companion_of(program@, id),
{
    match program.function_slot(id) {
        Some(k) => {
            let f = &program.functions[k].1;
            if has_text(f.name.as_str(), ".aborts") {
                return None;
            }
            match find_last_named(program, f.module_id, &append(f.name.as_str(), ".aborts")) {
                Some(a) => {
                    let g = program.function(a);
                    let silent = match &g.body {
                        IRNode::Const(Const::Bool(b)) => !*b,
                        _ => false,
                    };
                    if g.is_native && silent {
                        None
                    } else {
                        Some(a)
                    }
                },
                None => None,
            }
        },
        None => None,
    }
}

/// What the walk over a body needs besides the scope.
struct WalkCtx<'a> {
    derived: &'a Vec<FunctionID>,
    skip: &'a Vec<FunctionID>,
}

/// A copy of a list of expressions.
pub fn clone_nodes(v: &Vec<IRNode>) -> (r: Vec<IRNode>)
    ensures
        IRNode::views(r@) == IRNode::views(v@),
{
    let mut out: Vec<IRNode> = Vec::new();
    let mut i: usize = 0;
    while i < v.len()
        invariant
            i <= v.len(),
            out@.len() == i,
            forall|j: int| 0 <= j < i ==> (#[trigger] out@[j])@ == v@[j]@,
        decreases v.len() - i,
    {
        out.push(v[i].clone());
        i += 1;
    }
    assert(IRNode::views(out@) =~= IRNode::views(v@));
    out
}

/// How a call of a function aborts.
fn synth_callee_check(
    function: FunctionID,
    args: &Vec<IRNode>,
    type_args: &Vec<Type>,
    ctx: &WalkCtx,
    program: &Program,
) -> (r: IRNode)
    requires
        ctx.derived@ == derived_ids(program@),
    ensures
        r@ == callee_check(
            program@,
            ctx.skip@,
            function,
            Type::views(type_args@),
            IRNode::views(args@),
        ),
{
    if contains_id(ctx.derived, function) || contains_id(ctx.skip, function) {
        return IRNode::OptionNone;
    }
    match find_companion(program, function) {
        Some(a) => {
            let call = IRNode::Call {
                function: a,
                type_args: clone_types(type_args),
                args: clone_nodes(args),
            };
            let none = IRNode::OptionNone;
            assert(none@ == Node::OptionNone);
            make_or_else(call, none)
        },
        None => IRNode::OptionNone,
    }
}

/// The first abort in the evaluation of an expression.
fn walk(node: &IRNode, reg: &VariableRegistry, ctx: &WalkCtx) -> (r: IRNode)
    requires
        ctx.derived@ == derived_ids(reg.program@),
    ensures
        r@ == first_abort(node@, reg@, reg.program@, ctx.skip@),
    decreases node,
{
    match node {
        IRNode::BinOp { op, lhs, rhs } => {
            let l = walk(lhs, reg, ctx);
            let r = walk(rhs, reg, ctx);
            let own = check_binop(*op, lhs, rhs, reg);
            chain_option(l, chain_option(r, own))
        },
        IRNode::UnOp { op, operand } => {
            let inner = walk(operand, reg, ctx);
            let own = check_unop(*op, operand, reg);
            chain_option(inner, own)
        },
        IRNode::Call { function, type_args, args } => {
            let before = walk_all(args, reg, ctx, true);
            let own = synth_callee_check(*function, args, type_args, ctx, reg.program);
            chain_option(before, own)
        },
        IRNode::Pack { fields, .. } => walk_all(fields, reg, ctx, false),
        IRNode::Field { base, .. } => walk(base, reg, ctx),
        IRNode::Unpack { value, .. } => walk(value, reg, ctx),
        IRNode::Tuple(elems) => walk_all(elems, reg, ctx, false),
        IRNode::Let { pattern, value, body } => {
            let before = walk(value, reg, ctx);
            let t = value.get_type(reg);
            let mut inner = reg.copy();
            inner.register_pattern(pattern, t);
            let rest = walk(body, &inner, ctx);
            chain_option(
                before,
                IRNode::Let {
                    pattern: crate::ir::clone_names(pattern),
                    value: Box::new((**value).clone()),
                    body: Box::new(rest),
                },
            )
        },
        IRNode::If { cond, then_branch, else_branch } => {
            let before = walk(cond, reg, ctx);
            let t = walk(then_branch, reg, ctx);
            let e = walk(else_branch, reg, ctx);
            chain_option(
                before,
                IRNode::If {
                    cond: Box::new((**cond).clone()),
                    then_branch: Box::new(t),
                    else_branch: Box::new(e),
                },
            )
        },
        IRNode::Match { scrutinee, cases } => {
            let before = walk(scrutinee, reg, ctx);
            let t = scrutinee.get_type(reg);
            let checked = walk_cases(cases, &t, reg, ctx);
            chain_option(
                before,
                IRNode::Match { scrutinee: Box::new((**scrutinee).clone()), cases: checked },
            )
        },
        IRNode::MatchOption { scrutinee, binding, some_branch, none_branch } => {
            let before = walk(scrutinee, reg, ctx);
            let mut inner = reg.copy();
            inner.register(binding.clone(), Type::TypeParameter(0));
            let s = walk(some_branch, &inner, ctx);
            let n = walk(none_branch, reg, ctx);
            chain_option(
                before,
                IRNode::MatchOption {
                    scrutinee: Box::new((**scrutinee).clone()),
                    binding: binding.clone(),
                    some_branch: Box::new(s),
                    none_branch: Box::new(n),
                },
            )
        },
        IRNode::UpdateField { base, value, .. } => {
            let b = walk(base, reg, ctx);
            let v = walk(value, reg, ctx);
            chain_option(b, v)
        },
        IRNode::UpdateVec { base, index, value } => {
            let b = walk(base, reg, ctx);
            let i = walk(index, reg, ctx);
            let v = walk(value, reg, ctx);
            chain_option(b, chain_option(i, v))
        },
        IRNode::ReadRef(inner) => walk(inner, reg, ctx),
        IRNode::WriteRef { reference, value } => {
            let b = walk(reference, reg, ctx);
            let v = walk(value, reg, ctx);
            chain_option(b, v)
        },
        IRNode::MutableBorrow { val_expr, .. } => walk(val_expr, reg, ctx),
        IRNode::ToProp(inner) => walk(inner, reg, ctx),
        IRNode::ToBool(inner) => walk(inner, reg, ctx),
        IRNode::OptionSome(inner) => walk(inner, reg, ctx),
        IRNode::Abort { code } => {
            let c = match code {
                Some(c) => (**c).clone(),
                None => zero_u64(),
            };
            user_assert_some(c)
        },
        _ => IRNode::OptionNone,
    }
}

/// The first abort in the evaluation of the expressions in order.
fn walk_all(
    v: &Vec<IRNode>,
    reg: &VariableRegistry,
    ctx: &WalkCtx,
    arguments: bool,
) -> (r: IRNode)
    requires
        ctx.derived@ == derived_ids(reg.program@),
    ensures
        r@ == first_abort_among(IRNode::views(v@), reg@, reg.program@, ctx.skip@, arguments),
    decreases v,
{
    let ghost all = IRNode::views(v@);
    let mut out = IRNode::OptionNone;
    let mut i: usize = 0;
    while i < v.len()
        invariant
            i <= v.len(),
            all == IRNode::views(v@),
            ctx.derived@ == derived_ids(reg.program@),
            out@ == first_abort_among(
                all.subrange(0, i as int),
                reg@,
                reg.program@,
                ctx.skip@,
                arguments,
            ),
        decreases v.len() - i,
    {
        proof {
            let next = all.subrange(0, i + 1);
            assert(next.subrange(0, next.len() - 1) =~= all.subrange(0, i as int));
            assert(next[next.len() - 1] == v@[i as int]@);
        }
        let is_abort = match &v[i] {
            IRNode::Abort { .. } => true,
            _ => false,
        };
        if !(arguments && is_abort) {
            let next = walk(&v[i], reg, ctx);
            out = chain_option(out, next);
        }
        i += 1;
    }
    assert(all.subrange(0, i as int) =~= all);
    out
}

/// The first abort in each case of a match on a value of the type.
fn walk_cases(
    cases: &Vec<(usize, Vec<TempId>, IRNode)>,
    scrutinee: &Option<Type>,
    reg: &VariableRegistry,
    ctx: &WalkCtx,
) -> (r: Vec<(usize, Vec<TempId>, IRNode)>)
    requires
        ctx.derived@ == derived_ids(reg.program@),
    ensures
        IRNode::case_views(r@) == first_abort_cases(
            IRNode::case_views(cases@),
            optional_ty(*scrutinee),
            reg@,
            reg.program@,
            ctx.skip@,
        ),
    decreases cases,
{
    let ghost all = IRNode::case_views(cases@);
    let ghost goal = first_abort_cases(
        all,
        optional_ty(*scrutinee),
        reg@,
        reg.program@,
        ctx.skip@,
    );
    let mut out: Vec<(usize, Vec<TempId>, IRNode)> = Vec::new();
    let mut i: usize = 0;
    while i < cases.len()
        invariant
            i <= cases.len(),
            out@.len() == i,
            all == IRNode::case_views(cases@),
            goal == first_abort_cases(
                all,
                optional_ty(*scrutinee),
                reg@,
                reg.program@,
                ctx.skip@,
            ),
            ctx.derived@ == derived_ids(reg.program@),
            forall|j: int| #![trigger out@[j]]
                0 <= j < i ==> (out@[j].0, crate::ir::names(out@[j].1@), out@[j].2@) == goal[j],
        decreases cases.len() - i,
    {
        let inner = reg.case_scope(scrutinee, cases[i].0, &cases[i].1);
        assert(all[i as int] == (
            cases@[i as int].0,
            crate::ir::names(cases@[i as int].1@),
            cases@[i as int].2@,
        ));
        let body = walk(&cases[i].2, &inner, ctx);
        out.push((cases[i].0, crate::ir::clone_names(&cases[i].1), body));
        i += 1;
    }
    assert(IRNode::case_views(out@) =~= goal);
    out
}

/// Whether every case body is `none`.
pub open spec fn all_none(cases: Seq<(usize, Seq<Name>, Node)>) -> bool {
    forall|i: int| 0 <= i < cases.len() ==> (#[trigger] cases[i]).2 is OptionNone
}

/// Whether a match on an option hands an abort on as it is.
pub open spec fn is_abort_chain(binding: Name, some_branch: Node) -> bool {
    binding == "__abort"@ && some_branch == Node::OptionSome(Box::new(Node::Var("__abort"@)))
}

/// The expression with the parts dropped that never abort.
pub open spec fn collapsed(n: Node) -> Node
    decreases n,
{
    match n {
        Node::If { cond, then_branch, else_branch } => {
            let t = collapsed(*then_branch);
            let e = collapsed(*else_branch);
            if t is OptionNone && e is OptionNone {
                Node::OptionNone
            } else {
                Node::If { cond, then_branch: Box::new(t), else_branch: Box::new(e) }
            }
        },
        Node::Let { pattern, value, body } => {
            let b = collapsed(*body);
            if b is OptionNone {
                Node::OptionNone
            } else {
                Node::Let { pattern, value, body: Box::new(b) }
            }
        },
        Node::Match { scrutinee, cases } => {
            let cs = collapsed_cases(cases);
            if all_none(cs) {
                Node::OptionNone
            } else {
                Node::Match { scrutinee, cases: cs }
            }
        },
        Node::MatchOption { scrutinee, binding, some_branch, none_branch } => {
            let o = collapsed(*scrutinee);
            let a = collapsed(*some_branch);
            let b = collapsed(*none_branch);
            if a is OptionNone && b is OptionNone {
                Node::OptionNone
            } else if is_abort_chain(binding, a) && b is OptionNone {
                o
            } else {
                Node::MatchOption {
                    scrutinee: Box::new(o),
                    binding,
                    some_branch: Box::new(a),
                    none_branch: Box::new(b),
                }
            }
        },
        _ => n,
    }
}

/// The cases with the parts of their bodies dropped that never abort.
pub open spec fn collapsed_cases(cases: Seq<(usize, Seq<Name>, Node)>) -> Seq<
    (usize, Seq<Name>, Node),
>
    decreases cases,
{
    Seq::new(
        cases.len(),
        |i: int|
            if 0 <= i < cases.len() {
                (cases[i].0, cases[i].1, collapsed(cases[i].2))
            } else {
                arbitrary()
            },
    )
}

/// Whether the expression is `none`.
fn is_none(n: &IRNode) -> (r: bool)
    ensures
        r == (n@ is OptionNone),
{
    match n {
        IRNode::OptionNone => true,
        _ => false,
    }
}

/// Whether a match on an option hands an abort on as it is.
fn hands_abort_on(binding: &TempId, some_branch: &IRNode) -> (r: bool)
    ensures
        r == is_abort_chain(binding@, some_branch@),
{
    proof {
        reveal_with_fuel(IRNode::view, 2);
    }
    match some_branch {
        IRNode::OptionSome(inner) => match &**inner {
            IRNode::Var(v) => name_is(binding, "__abort") && name_is(v, "__abort"),
            _ => false,
        },
        _ => false,
    }
}

/// Drops the parts of an expression that never abort.
pub fn collapse_none(node: &IRNode) -> (r: IRNode)
    ensures
        r@ == collapsed(node@),
    decreases node,
{
    match node {
        IRNode::If { cond, then_branch, else_branch } => {
            let t = collapse_none(then_branch);
            let e = collapse_none(else_branch);
            if is_none(&t) && is_none(&e) {
                IRNode::OptionNone
            } else {
                IRNode::If {
                    cond: Box::new((**cond).clone()),
                    then_branch: Box::new(t),
                    else_branch: Box::new(e),
                }
            }
        },
        IRNode::Let { pattern, value, body } => {
            let b = collapse_none(body);
            if is_none(&b) {
                IRNode::OptionNone
            } else {
                IRNode::Let {
                    pattern: crate::ir::clone_names(pattern),
                    value: Box::new((**value).clone()),
                    body: Box::new(b),
                }
            }
        },
        IRNode::Match { scrutinee, cases } => {
            let (cs, none) = collapse_cases(cases);
            if none {
                IRNode::OptionNone
            } else {
                IRNode::Match { scrutinee: Box::new((**scrutinee).clone()), cases: cs }
            }
        },
        IRNode::MatchOption { scrutinee, binding, some_branch, none_branch } => {
            let o = collapse_none(scrutinee);
            let a = collapse_none(some_branch);
            let b = collapse_none(none_branch);
            if is_none(&a) && is_none(&b) {
                IRNode::OptionNone
            } else if hands_abort_on(binding, &a) && is_none(&b) {
                o
            } else {
                IRNode::MatchOption {
                    scrutinee: Box::new(o),
                    binding: binding.clone(),
                    some_branch: Box::new(a),
                    none_branch: Box::new(b),
                }
            }
        },
        _ => node.clone(),
    }
}

/// Drops the parts of the case bodies that never abort, and says whether nothing
/// is left.
fn collapse_cases(cases: &Vec<(usize, Vec<TempId>, IRNode)>) -> (r: (
    Vec<(usize, Vec<TempId>, IRNode)>,
    bool,
))
    ensures
        IRNode::case_views(r.0@) == collapsed_cases(IRNode::case_views(cases@)),
        r.1 == all_none(collapsed_cases(IRNode::case_views(cases@))),
    decreases cases,
{
    let ghost all = IRNode::case_views(cases@);
    let ghost goal = collapsed_cases(all);
    let mut out: Vec<(usize, Vec<TempId>, IRNode)> = Vec::new();
    let mut none = true;
    let mut i: usize = 0;
    while i < cases.len()
        invariant
            i <= cases.len(),
            out@.len() == i,
            all == IRNode::case_views(cases@),
            goal == collapsed_cases(all),
            none == forall|j: int| 0 <= j < i ==> (#[trigger] goal[j]).2 is OptionNone,
            forall|j: int| #![trigger out@[j]]
                0 <= j < i ==> (out@[j].0, crate::ir::names(out@[j].1@), out@[j].2@) == goal[j],
        decreases cases.len() - i,
    {
        assert(all[i as int].2 == cases@[i as int].2@);
        let body = collapse_none(&cases[i].2);
        assert(goal[i as int].2 == body@);
        none = none && is_none(&body);
        out.push((cases[i].0, crate::ir::clone_names(&cases[i].1), body));
        i += 1;
    }
    assert(IRNode::case_views(out@) =~= goal);
    (out, none)
}

/// Whether each of the names is `_`.
pub open spec fn all_blank(pattern: Seq<Name>) -> bool {
    forall|i: int| 0 <= i < pattern.len() ==> #[trigger] pattern[i] == "_"@
}

/// Whether the expression is a branch.
pub open spec fn is_branch(n: Node) -> bool {
    n is If || n is Match || n is MatchOption
}

/// The abort that a boolean says: an assertion's, where the boolean is true. The
/// companions in `ids` say it already; they are dropped where `drop_callee` is
/// set.
pub open spec fn lifted(n: Node, ids: Seq<FunctionID>, drop_callee: bool) -> Node
    decreases n,
{
    match n {
        Node::Const(Lit::Bool(b)) => if b {
            assertion_abort(zero_code())
        } else {
            Node::OptionNone
        },
        Node::Abort { code } => assertion_abort(
            match code {
                Some(c) => *c,
                None => zero_code(),
            },
        ),
        Node::Call { function, .. } if ids.contains(function) => if drop_callee {
            Node::OptionNone
        } else {
            n
        },
        Node::If { cond, then_branch, else_branch } => Node::If {
            cond,
            then_branch: Box::new(lifted(*then_branch, ids, drop_callee)),
            else_branch: Box::new(lifted(*else_branch, ids, drop_callee)),
        },
        Node::Match { scrutinee, cases } => Node::Match {
            scrutinee,
            cases: lifted_cases(cases, ids, drop_callee),
        },
        Node::MatchOption { scrutinee, binding, some_branch, none_branch } => Node::MatchOption {
            scrutinee,
            binding,
            some_branch: Box::new(lifted(*some_branch, ids, drop_callee)),
            none_branch: Box::new(lifted(*none_branch, ids, drop_callee)),
        },
        Node::Let { pattern, value, body } => if all_blank(pattern) && is_branch(*value) {
            let v = lifted(*value, ids, drop_callee);
            let b = lifted(*body, ids, drop_callee);
            if v is OptionNone {
                b
            } else {
                or_else(v, b)
            }
        } else {
            Node::Let { pattern, value, body: Box::new(lifted(*body, ids, drop_callee)) }
        },
        _ => Node::If {
            cond: Box::new(n),
            then_branch: Box::new(assertion_abort(zero_code())),
            else_branch: Box::new(Node::OptionNone),
        },
    }
}

/// The cases with their bodies lifted.
pub open spec fn lifted_cases(
    cases: Seq<(usize, Seq<Name>, Node)>,
    ids: Seq<FunctionID>,
    drop_callee: bool,
) -> Seq<(usize, Seq<Name>, Node)>
    decreases cases,
{
    Seq::new(
        cases.len(),
        |i: int|
            if 0 <= i < cases.len() {
                (cases[i].0, cases[i].1, lifted(cases[i].2, ids, drop_callee))
            } else {
                arbitrary()
            },
    )
}

/// Whether each of the names is `_`.
fn only_blanks(pattern: &Vec<TempId>) -> (r: bool)
    ensures
        r == all_blank(crate::ir::names(pattern@)),
{
    let mut i: usize = 0;
    while i < pattern.len()
        invariant
            i <= pattern.len(),
            forall|j: int| 0 <= j < i ==> (#[trigger] pattern@[j])@ == "_"@,
        decreases pattern.len() - i,
    {
        if !name_is(&pattern[i], "_") {
            assert(crate::ir::names(pattern@)[i as int] != "_"@);
            return false;
        }
        i += 1;
    }
    true
}

/// Turns a boolean abort expression into one that says the abort.
pub fn transform_existing(
    node: &IRNode,
    aborts_ids: &Vec<FunctionID>,
    drop_callee: bool,
) -> (r: IRNode)
    ensures
        r@ == lifted(node@, aborts_ids@, drop_callee),
    decreases node,
{
    match node {
        IRNode::Const(Const::Bool(b)) => if *b {
            user_assert_some(zero_u64())
        } else {
            IRNode::OptionNone
        },
        IRNode::Abort { code } => {
            let c = match code {
                Some(c) => (**c).clone(),
                None => zero_u64(),
            };
            user_assert_some(c)
        },
        IRNode::If { cond, then_branch, else_branch } => IRNode::If {
            cond: Box::new((**cond).clone()),
            then_branch: Box::new(transform_existing(then_branch, aborts_ids, drop_callee)),
            else_branch: Box::new(transform_existing(else_branch, aborts_ids, drop_callee)),
        },
        IRNode::Match { scrutinee, cases } => IRNode::Match {
            scrutinee: Box::new((**scrutinee).clone()),
            cases: transform_cases(cases, aborts_ids, drop_callee),
        },
        IRNode::MatchOption { scrutinee, binding, some_branch, none_branch } => IRNode::MatchOption {
            scrutinee: Box::new((**scrutinee).clone()),
            binding: binding.clone(),
            some_branch: Box::new(transform_existing(some_branch, aborts_ids, drop_callee)),
            none_branch: Box::new(transform_existing(none_branch, aborts_ids, drop_callee)),
        },
        IRNode::Let { pattern, value, body } => {
            let branch = match &**value {
                IRNode::If { .. } => true,
                IRNode::Match { .. } => true,
                IRNode::MatchOption { .. } => true,
                _ => false,
            };
            assert(branch == is_branch((**value)@));
            let b = transform_existing(body, aborts_ids, drop_callee);
            if only_blanks(pattern) && branch {
                let v = transform_existing(value, aborts_ids, drop_callee);
                if is_none(&v) {
                    return b;
                }
                make_or_else(v, b)
            } else {
                IRNode::Let {
                    pattern: crate::ir::clone_names(pattern),
                    value: Box::new((**value).clone()),
                    body: Box::new(b),
                }
            }
        },
        _ => {
            if let IRNode::Call { function, .. } = node {
                if contains_id(aborts_ids, *function) {
                    return if drop_callee {
                        IRNode::OptionNone
                    } else {
                        node.clone()
                    };
                }
            }
            let some = user_assert_some(zero_u64());
            let none = IRNode::OptionNone;
            assert(none@ == Node::OptionNone);
            IRNode::If {
                cond: Box::new(node.clone()),
                then_branch: Box::new(some),
                else_branch: Box::new(none),
            }
        },
    }
}

/// Turns the boolean case bodies into ones that say the abort.
fn transform_cases(
    cases: &Vec<(usize, Vec<TempId>, IRNode)>,
    aborts_ids: &Vec<FunctionID>,
    drop_callee: bool,
) -> (r: Vec<(usize, Vec<TempId>, IRNode)>)
    ensures
        IRNode::case_views(r@) == lifted_cases(
            IRNode::case_views(cases@),
            aborts_ids@,
            drop_callee,
        ),
    decreases cases,
{
    let ghost all = IRNode::case_views(cases@);
    let ghost goal = lifted_cases(all, aborts_ids@, drop_callee);
    let mut out: Vec<(usize, Vec<TempId>, IRNode)> = Vec::new();
    let mut i: usize = 0;
    while i < cases.len()
        invariant
            i <= cases.len(),
            out@.len() == i,
            all == IRNode::case_views(cases@),
            goal == lifted_cases(all, aborts_ids@, drop_callee),
            forall|j: int| #![trigger out@[j]]
                0 <= j < i ==> (out@[j].0, crate::ir::names(out@[j].1@), out@[j].2@) == goal[j],
        decreases cases.len() - i,
    {
        assert(all[i as int].2 == cases@[i as int].2@);
        let body = transform_existing(&cases[i].2, aborts_ids, drop_callee);
        out.push((cases[i].0, crate::ir::clone_names(&cases[i].1), body));
        i += 1;
    }
    assert(IRNode::case_views(out@) =~= goal);
    out
}

/// Whether the expression contains an explicit abort in value position. A bare
/// abort among the arguments of a call stands for a proof.
pub open spec fn inline_abort(n: Node) -> bool
    decreases n, 1nat,
{
    n is Abort || inline_abort_below(n)
}

/// Whether a direct subexpression contains an explicit abort in value position.
pub open spec fn inline_abort_below(n: Node) -> bool
    decreases n, 0nat,
{
    proof {
        n.lemma_kids_decrease();
    }
    exists|i: int|
        0 <= i < n.kids().len() && !(n is Call && n.kids()[i] is Abort) && inline_abort(
            #[trigger] n.kids()[i],
        )
}

/// Whether the expression contains an explicit abort in value position.
pub fn has_inline_abort(node: &IRNode) -> (r: bool)
    ensures
        r == inline_abort(node@),
    decreases node@,
{
    match node {
        IRNode::Abort { .. } => {
            return true;
        },
        _ => {},
    }
    let call = match node {
        IRNode::Call { .. } => true,
        _ => false,
    };
    let ks = node.children();
    let mut i: usize = 0;
    proof {
        node@.lemma_kids_decrease();
    }
    while i < ks.len()
        invariant
            i <= ks.len(),
            call == (node@ is Call),
            ks@.len() == node@.kids().len(),
            forall|j: int| 0 <= j < ks@.len() ==> (#[trigger] ks@[j])@ == node@.kids()[j],
            forall|j: int|
                0 <= j < i ==> (node@ is Call && node@.kids()[j] is Abort) || !inline_abort(
                    #[trigger] node@.kids()[j],
                ),
            forall|j: int| 0 <= j < node@.kids().len() ==> decreases_to!(
                node@ => #[trigger] node@.kids()[j]
            ),
        decreases ks.len() - i,
    {
        assert(ks@[i as int]@ == node@.kids()[i as int]);
        let proof_slot = match ks[i] {
            IRNode::Abort { .. } => call,
            _ => false,
        };
        if !proof_slot && has_inline_abort(ks[i]) {
            assert(inline_abort_below(node@));
            return true;
        }
        i += 1;
    }
    assert(!inline_abort_below(node@));
    false
}

/// Whether the expression calls a loop continuation whose body aborts.
pub open spec fn is_aborting_exit(n: Node, p: Prog) -> bool {
    n matches Node::Call { function, .. } && p.has(function) && crate::text::occurs(
        p.func(function).name,
        ".after"@,
    ) && p.func(function).body.any(|m: Node| m is Abort)
}

/// The test for an abort.
struct IsAbort;

impl Test for IsAbort {
    closed spec fn holds(&self, n: Node) -> bool {
        n is Abort
    }

    fn check(&self, n: &IRNode) -> (r: bool) {
        match n {
            IRNode::Abort { .. } => true,
            _ => false,
        }
    }
}

/// The test for a call of a loop continuation whose body aborts.
struct AbortingExit<'a> {
    program: &'a Program,
}

impl<'a> Test for AbortingExit<'a> {
    closed spec fn holds(&self, n: Node) -> bool {
        is_aborting_exit(n, self.program@)
    }

    fn check(&self, n: &IRNode) -> (r: bool) {
        match n {
            IRNode::Call { function, .. } => match self.program.function_slot(*function) {
                Some(k) => {
                    let f = &self.program.functions[k].1;
                    let t = IsAbort;
                    assert((|m: Node| t.holds(m)) =~= (|m: Node| m is Abort));
                    has_text(f.name.as_str(), ".after") && any_node(&f.body, &t)
                },
                None => false,
            },
            _ => false,
        }
    }
}

/// The function that a companion belongs to.
pub open spec fn subject_of(p: Prog, f: Func) -> Option<FunctionID> {
    if crate::text::ends(f.name, ".aborts"@) {
        let stem = crate::threading::value_name(f.name);
        if aborts_name(stem) {
            None
        } else {
            last_named(p, f.module_id, stem)
        }
    } else {
        None
    }
}

/// Whether a companion is that of a loop helper.
pub open spec fn is_loop_companion(f: Func) -> bool {
    f.mutual_group_id is Some && (crate::text::occurs(f.name, ".while_"@) || crate::text::occurs(
        f.name,
        ".after"@,
    ))
}

/// Whether leaving the loop can abort.
pub open spec fn exit_aborts(p: Prog, subject: Option<FunctionID>) -> bool {
    match subject {
        Some(id) => inline_abort(p.func(id).body) || p.func(id).body.any(
            |n: Node| is_aborting_exit(n, p),
        ),
        None => false,
    }
}

/// Whether every free variable of the body is a parameter.
pub open spec fn is_closed(f: Func) -> bool {
    forall|x: Name| #[trigger]
        f.body.free(x) ==> crate::scope::var_type(
            crate::scope::param_vars(f.signature.parameters),
            x,
        ) is Some
}

/// The companion body, derived from the body of the function it belongs to.
/// What the existing companion asserts is added, unless the function is
/// recursive. Without a function to derive from, the existing body is lifted.
pub open spec fn derived_body(p: Prog, f: Func) -> Node {
    let ids = derived_ids(p);
    let subject = subject_of(p, f);
    if is_loop_companion(f) && !exit_aborts(p, subject) {
        Node::OptionNone
    } else {
        match subject {
            Some(id) if is_closed(p.func(id)) => {
                let g = p.func(id);
                let skip: Seq<FunctionID> = if is_loop_companion(f) {
                    Seq::empty()
                } else {
                    seq![id]
                };
                let walked = first_abort(
                    g.body,
                    crate::scope::param_vars(g.signature.parameters),
                    p,
                    skip,
                );
                if g.mutual_group_id is Some || g.body.calls(id) {
                    walked
                } else {
                    chained(walked, collapsed(lifted(f.body, ids, true)))
                }
            },
            _ => collapsed(lifted(f.body, ids, false)),
        }
    }
}

/// The function, with the companion body and result type where it is a companion.
pub open spec fn derived_func(p: Prog, f: Func) -> Func {
    if is_derived()(0, f) {
        Func {
            body: derived_body(p, f),
            signature: crate::program::Signature {
                return_type: Ty::Option(Box::new(Ty::MoveAbort)),
                ..f.signature
            },
            ..f
        }
    } else {
        f
    }
}

/// The program with each abort companion derived.
pub open spec fn aborts_injected(p: Prog) -> Prog {
    Prog {
        functions: Seq::new(
            p.functions.len(),
            |i: int| (p.functions[i].0, derived_func(p, p.functions[i].1)),
        ),
        ..p
    }
}

/// Whether every free variable of the body is a parameter.
fn only_params_free(f: &Function, reg: &VariableRegistry) -> (r: bool)
    requires
        reg@ == crate::scope::param_vars(f@.signature.parameters),
    ensures
        r == is_closed(f@),
{
    let free = free_vars(&f.body);
    let mut i: usize = 0;
    while i < free.len()
        invariant
            i <= free.len(),
            reg@ == crate::scope::param_vars(f@.signature.parameters),
            forall|x: Name| #[trigger]
                crate::ir::names(free@).contains(x) <==> f@.body.free(x),
            forall|j: int| 0 <= j < i ==> crate::scope::var_type(reg@, (#[trigger] free@[j])@)
                is Some,
        decreases free.len() - i,
    {
        if !reg.contains(&free[i]) {
            proof {
                let x = free@[i as int]@;
                assert(crate::ir::names(free@)[i as int] == x);
                assert(crate::ir::names(free@).contains(x));
                assert(f@.body.free(x));
            }
            return false;
        }
        i += 1;
    }
    assert forall|x: Name| #[trigger] f@.body.free(x) implies crate::scope::var_type(reg@, x)
        is Some by {
        assert(crate::ir::names(free@).contains(x));
        let j = choose|j: int| 0 <= j < free@.len() && crate::ir::names(free@)[j] == x;
        assert(free@[j]@ == x);
    }
    true
}

/// The function that a companion belongs to.
fn find_subject(program: &Program, f: &Function) -> (r: Option<FunctionID>)
    ensures
        r == subject_of(program@, f@),
        r matches Some(id) ==> program@.has(id),
{
    match strip_end(f.name.as_str(), ".aborts") {
        Some(stem) => {
            assert(stem@ == crate::threading::value_name(f.name@));
            if has_text(stem.as_str(), ".aborts") {
                None
            } else {
                find_last_named(program, f.module_id, &stem)
            }
        },
        None => None,
    }
}

/// The companion body.
fn derive_body(program: &Program, f: &Function, derived: &Vec<FunctionID>) -> (r: IRNode)
    requires
        derived@ == derived_ids(program@),
    ensures
        r@ == derived_body(program@, f@),
{
    let subject = find_subject(program, f);
    let helper = f.mutual_group_id.is_some() && (has_text(f.name.as_str(), ".while_") || has_text(
        f.name.as_str(),
        ".after",
    ));
    if helper {
        let exit = match subject {
            Some(id) => {
                let t = AbortingExit { program };
                assert((|n: Node| t.holds(n)) =~= (|n: Node| is_aborting_exit(n, program@)));
                let body = &program.function(id).body;
                has_inline_abort(body) || any_node(body, &t)
            },
            None => false,
        };
        if !exit {
            return IRNode::OptionNone;
        }
    }
    if let Some(id) = subject {
        let g = program.function(id);
        let reg = VariableRegistry::of_params(program, &g.signature.parameters);
        if only_params_free(g, &reg) {
            let mut skip: Vec<FunctionID> = Vec::new();
            if !helper {
                skip.push(id);
            }
            assert(skip@ =~= if helper {
                Seq::empty()
            } else {
                seq![id]
            });
            let ctx = WalkCtx { derived, skip: &skip };
            let walked = walk(&g.body, &reg, &ctx);
            if g.mutual_group_id.is_some() || calls_function(&g.body, id) {
                return walked;
            }
            let asserts = collapse_none(&transform_existing(&f.body, derived, true));
            return chain_option(walked, asserts);
        }
    }
    collapse_none(&transform_existing(&f.body, derived, false))
}

/// Derives the abort companions of the program.
pub fn inject_arithmetic_aborts(program: &mut Program)
    requires
        old(program)@.calls_resolve(),
    ensures
        final(program)@ == aborts_injected(old(program)@),
{
    let ghost start = program@;
    let derived = find_derived(program);
    let mut bodies: Vec<Option<IRNode>> = Vec::new();
    let mut i: usize = 0;
    while i < program.functions.len()
        invariant
            i <= program.functions.len(),
            program@ == start,
            derived@ == derived_ids(start),
            bodies@.len() == i,
            forall|j: int| #![trigger bodies@[j]]
                0 <= j < i ==> match bodies@[j] {
                    Some(b) => is_derived()(0, start.functions[j].1) && b@ == derived_body(
                        start,
                        start.functions[j].1,
                    ),
                    None => !is_derived()(0, start.functions[j].1),
                },
        decreases program.functions.len() - i,
    {
        let f = &program.functions[i].1;
        assert(start.functions[i as int].1 == f@);
        if has_text(f.name.as_str(), ".aborts") && !f.is_native {
            bodies.push(Some(derive_body(program, f, &derived)));
        } else {
            bodies.push(None);
        }
        i += 1;
    }
    let ghost before = *program;
    let mut k: usize = program.functions.len();
    let ghost n = program.functions@.len();
    while k > 0
        invariant
            k <= n,
            n == program.functions@.len(),
            n == before.functions@.len(),
            before@ == start,
            *program == (Program { functions: program.functions, ..before }),
            bodies@.len() == k,
            forall|j: int| #![trigger bodies@[j]]
                0 <= j < k ==> match bodies@[j] {
                    Some(b) => is_derived()(0, start.functions[j].1) && b@ == derived_body(
                        start,
                        start.functions[j].1,
                    ),
                    None => !is_derived()(0, start.functions[j].1),
                },
            forall|j: int| #![trigger program.functions@[j]]
                0 <= j < k ==> program.functions@[j] == before.functions@[j],
            forall|j: int| #![trigger program.functions@[j]]
                k <= j < n ==> program.functions@[j].0 == start.functions[j].0
                    && program.functions@[j].1@ == derived_func(start, start.functions[j].1),
        decreases k,
    {
        k -= 1;
        assert(program.functions@[k as int] == before.functions@[k as int]);
        assert(start.functions[k as int].1 == before.functions@[k as int].1@);
        let ghost at_k = bodies@[k as int];
        match bodies.pop() {
            Some(Some(body)) => {
                assert(at_k == Some(body));
                program.functions[k].1.body = body;
                program.functions[k].1.signature.return_type = Type::Option(
                    Box::new(Type::MoveAbort),
                );
                proof {
                    reveal_with_fuel(Type::view, 2);
                    let f = program.functions@[k as int].1;
                    assert(f.signature@.return_type == Ty::Option(Box::new(Ty::MoveAbort)));
                    assert(f@ =~= derived_func(start, start.functions[k as int].1));
                }
            },
            _ => {
                assert(at_k is None);
            },
        }
    }
    assert(program@.functions =~= aborts_injected(start).functions);
    assert(program@ =~= aborts_injected(start));
}

/// Whether an option that says how evaluation aborts is an abort, where `v` says
/// which conditions hold and which other options are aborts, and `pick` which case
/// a match takes.
pub open spec fn aborts(n: Node, v: spec_fn(Node) -> bool, pick: spec_fn(Node) -> int) -> bool
    decreases n,
{
    match n {
        Node::OptionNone => false,
        Node::OptionSome(_) => true,
        Node::If { cond, then_branch, else_branch } => if v(*cond) {
            aborts(*then_branch, v, pick)
        } else {
            aborts(*else_branch, v, pick)
        },
        Node::Let { body, .. } => aborts(*body, v, pick),
        Node::Match { scrutinee, cases } => case_aborts(cases, pick(*scrutinee), v, pick),
        Node::MatchOption { scrutinee, some_branch, none_branch, .. } => if aborts(
            *scrutinee,
            v,
            pick,
        ) {
            aborts(*some_branch, v, pick)
        } else {
            aborts(*none_branch, v, pick)
        },
        _ => v(n),
    }
}

/// Whether the case that a match takes is an abort.
pub open spec fn case_aborts(
    cases: Seq<(usize, Seq<Name>, Node)>,
    i: int,
    v: spec_fn(Node) -> bool,
    pick: spec_fn(Node) -> int,
) -> bool
    decreases cases,
{
    0 <= i < cases.len() && aborts(cases[i].2, v, pick)
}

/// Two options in a chain are an abort where one of them is.
pub proof fn law_chain_aborts_where_one_does(
    first: Node,
    second: Node,
    v: spec_fn(Node) -> bool,
    pick: spec_fn(Node) -> int,
)
    ensures
        aborts(chained(first, second), v, pick) == (aborts(first, v, pick) || aborts(
            second,
            v,
            pick,
        )),
{
    reveal_with_fuel(aborts, 2);
}

/// Dropping what never aborts does not change what aborts.
pub proof fn law_collapsing_keeps_aborts(
    n: Node,
    v: spec_fn(Node) -> bool,
    pick: spec_fn(Node) -> int,
)
    ensures
        aborts(collapsed(n), v, pick) == aborts(n, v, pick),
    decreases n,
{
    match n {
        Node::If { cond, then_branch, else_branch } => {
            law_collapsing_keeps_aborts(*then_branch, v, pick);
            law_collapsing_keeps_aborts(*else_branch, v, pick);
        },
        Node::Let { body, .. } => {
            law_collapsing_keeps_aborts(*body, v, pick);
        },
        Node::Match { scrutinee, cases } => {
            let i = pick(*scrutinee);
            let cs = collapsed_cases(cases);
            if 0 <= i < cases.len() {
                assert(decreases_to!(cases => cases[i]));
                law_collapsing_keeps_aborts(cases[i].2, v, pick);
                assert(cs[i].2 == collapsed(cases[i].2));
            }
            assert(case_aborts(cs, i, v, pick) == case_aborts(cases, i, v, pick));
            assert(aborts(n, v, pick) == case_aborts(cases, i, v, pick));
            if !all_none(cs) {
                assert(aborts(collapsed(n), v, pick) == case_aborts(cs, i, v, pick));
            }
        },
        Node::MatchOption { scrutinee, binding, some_branch, none_branch } => {
            law_collapsing_keeps_aborts(*scrutinee, v, pick);
            law_collapsing_keeps_aborts(*some_branch, v, pick);
            law_collapsing_keeps_aborts(*none_branch, v, pick);
            reveal_with_fuel(aborts, 2);
        },
        _ => {},
    }
}

/// Whether every option that the expression ends in is `none`.
pub open spec fn ends_none(n: Node) -> bool
    decreases n,
{
    match n {
        Node::OptionNone => true,
        Node::If { then_branch, else_branch, .. } => ends_none(*then_branch) && ends_none(
            *else_branch,
        ),
        Node::Let { body, .. } => ends_none(*body),
        Node::Match { cases, .. } => cases_end_none(cases),
        Node::MatchOption { some_branch, none_branch, .. } => ends_none(*some_branch) && ends_none(
            *none_branch,
        ),
        _ => false,
    }
}

/// Whether every option that a case ends in is `none`.
pub open spec fn cases_end_none(cases: Seq<(usize, Seq<Name>, Node)>) -> bool
    decreases cases,
{
    forall|i: int| 0 <= i < cases.len() ==> ends_none((#[trigger] cases[i]).2)
}

/// Whether what ends in `none` alone is `none` itself, in the expression and in each
/// branch, binding and option inside.
pub open spec fn has_no_idle_part(n: Node) -> bool
    decreases n,
{
    (ends_none(n) ==> n is OptionNone) && match n {
        Node::If { then_branch, else_branch, .. } => has_no_idle_part(*then_branch)
            && has_no_idle_part(*else_branch),
        Node::Let { body, .. } => has_no_idle_part(*body),
        Node::Match { cases, .. } => cases_have_no_idle_part(cases),
        Node::MatchOption { scrutinee, some_branch, none_branch, .. } => has_no_idle_part(
            *scrutinee,
        ) && has_no_idle_part(*some_branch) && has_no_idle_part(*none_branch),
        _ => true,
    }
}

/// Whether what ends in `none` alone is `none` itself in each case.
pub open spec fn cases_have_no_idle_part(cases: Seq<(usize, Seq<Name>, Node)>) -> bool
    decreases cases,
{
    forall|i: int| 0 <= i < cases.len() ==> has_no_idle_part((#[trigger] cases[i]).2)
}

/// Nothing that ends in `none` alone is left once it is dropped, and an expression
/// that ends in `none` alone becomes `none`.
pub proof fn law_nothing_idle_is_left(n: Node)
    ensures
        has_no_idle_part(collapsed(n)),
        ends_none(n) ==> collapsed(n) is OptionNone,
    decreases n,
{
    match n {
        Node::If { then_branch, else_branch, .. } => {
            law_nothing_idle_is_left(*then_branch);
            law_nothing_idle_is_left(*else_branch);
        },
        Node::Let { body, .. } => {
            law_nothing_idle_is_left(*body);
        },
        Node::Match { scrutinee, cases } => {
            let cs = collapsed_cases(cases);
            assert forall|i: int| 0 <= i < cases.len() implies has_no_idle_part(
                (#[trigger] cs[i]).2,
            ) && (ends_none(cases[i].2) ==> cs[i].2 is OptionNone) by {
                assert(decreases_to!(cases => cases[i]));
                law_nothing_idle_is_left(cases[i].2);
            }
            assert(cases_have_no_idle_part(cs));
            if ends_none(n) {
                assert(cases_end_none(cases));
                assert forall|i: int| 0 <= i < cs.len() implies (#[trigger] cs[i]).2
                    is OptionNone by {
                    assert(ends_none(cases[i].2));
                }
            }
            if cases_end_none(cs) {
                assert forall|i: int| 0 <= i < cs.len() implies (#[trigger] cs[i]).2
                    is OptionNone by {
                    assert(has_no_idle_part(cs[i].2));
                }
                assert(all_none(cs));
            }
        },
        Node::MatchOption { scrutinee, some_branch, none_branch, .. } => {
            law_nothing_idle_is_left(*scrutinee);
            law_nothing_idle_is_left(*some_branch);
            law_nothing_idle_is_left(*none_branch);
        },
        _ => {},
    }
}

/// Whether an abort condition says that evaluation aborts, where `v` says which
/// conditions hold, and `pick` which case a match takes. A branch that is bound to
/// no name says so as well as what follows it.
pub open spec fn says_abort(n: Node, v: spec_fn(Node) -> bool, pick: spec_fn(Node) -> int) -> bool
    decreases n,
{
    match n {
        Node::Const(Lit::Bool(b)) => b,
        Node::Abort { .. } => true,
        Node::If { cond, then_branch, else_branch } => if v(*cond) {
            says_abort(*then_branch, v, pick)
        } else {
            says_abort(*else_branch, v, pick)
        },
        Node::Match { scrutinee, cases } => case_says_abort(cases, pick(*scrutinee), v, pick),
        Node::MatchOption { scrutinee, some_branch, none_branch, .. } => if aborts(
            *scrutinee,
            v,
            pick,
        ) {
            says_abort(*some_branch, v, pick)
        } else {
            says_abort(*none_branch, v, pick)
        },
        Node::Let { pattern, value, body } => (all_blank(pattern) && is_branch(*value)
            && says_abort(*value, v, pick)) || says_abort(*body, v, pick),
        _ => v(n),
    }
}

/// Whether the case that a match takes says that evaluation aborts.
pub open spec fn case_says_abort(
    cases: Seq<(usize, Seq<Name>, Node)>,
    i: int,
    v: spec_fn(Node) -> bool,
    pick: spec_fn(Node) -> int,
) -> bool
    decreases cases,
{
    0 <= i < cases.len() && says_abort(cases[i].2, v, pick)
}

/// An abort condition, made into an option, is an abort exactly where the condition
/// says so.
pub proof fn law_lifting_keeps_aborts(
    n: Node,
    ids: Seq<FunctionID>,
    v: spec_fn(Node) -> bool,
    pick: spec_fn(Node) -> int,
)
    ensures
        aborts(lifted(n, ids, false), v, pick) == says_abort(n, v, pick),
    decreases n,
{
    reveal_with_fuel(aborts, 2);
    match n {
        Node::If { cond, then_branch, else_branch } => {
            law_lifting_keeps_aborts(*then_branch, ids, v, pick);
            law_lifting_keeps_aborts(*else_branch, ids, v, pick);
        },
        Node::Let { value, body, .. } => {
            law_lifting_keeps_aborts(*value, ids, v, pick);
            law_lifting_keeps_aborts(*body, ids, v, pick);
        },
        Node::Match { scrutinee, cases } => {
            let i = pick(*scrutinee);
            if 0 <= i < cases.len() {
                assert(decreases_to!(cases => cases[i]));
                law_lifting_keeps_aborts(cases[i].2, ids, v, pick);
                assert(lifted_cases(cases, ids, false)[i].2 == lifted(cases[i].2, ids, false));
            }
            let cs = lifted_cases(cases, ids, false);
            assert(case_aborts(cs, i, v, pick) == case_says_abort(cases, i, v, pick));
            assert(aborts(lifted(n, ids, false), v, pick) == case_aborts(cs, i, v, pick));
        },
        Node::MatchOption { scrutinee, binding, some_branch, none_branch } => {
            law_lifting_keeps_aborts(*some_branch, ids, v, pick);
            law_lifting_keeps_aborts(*none_branch, ids, v, pick);
        },
        _ => {},
    }
}

/// What an option holds.
pub open spec fn held(v: crate::meaning::Val) -> Option<crate::meaning::Val> {
    match v {
        crate::meaning::Val::Just(x) => Some(*x),
        _ => None,
    }
}

/// The first of two aborts.
pub open spec fn sooner(
    a: Option<crate::meaning::Val>,
    b: Option<crate::meaning::Val>,
) -> Option<crate::meaning::Val> {
    match a {
        Some(v) => Some(v),
        None => b,
    }
}

/// How the calls of functions abort.
pub type Failing = spec_fn(FunctionID, Seq<Ty>, Seq<crate::meaning::Val>) -> Option<
    crate::meaning::Val,
>;

/// Whether a function is the abort companion of another: it stands in the same module,
/// under the name of the other followed by `.aborts`.
pub open spec fn is_companion(p: Prog, f: FunctionID, i: int) -> bool {
    &&& 0 <= i < p.functions.len()
    &&& p.functions[i].1.module_id == p.func(f).module_id
    &&& p.functions[i].1.name == p.func(f).name + ".aborts"@
}

/// Whether companions say how calls abort: a call of a function that has a companion
/// aborts as the companion says; and one that has none, or a native one that is `false`,
/// never aborts.
pub open spec fn companions_speak(p: Prog, fails: Failing, m: crate::meaning::Model) -> bool {
    forall|f: FunctionID, ts: Seq<Ty>, vs: Seq<crate::meaning::Val>|
        #![trigger fails(f, ts, vs)]
        p.has(f) && !aborts_name(p.func(f).name) ==> {
            &&& forall|i: int|
                is_companion(p, f, i) ==> held(
                    (m.call)((#[trigger] p.functions[i]).0, ts, vs),
                ) == fails(f, ts, vs)
            &&& forall|i: int|
                is_companion(p, f, i) && p.func((#[trigger] p.functions[i]).0).is_native && p.func(
                    p.functions[i].0,
                ).body == Node::Const(Lit::Bool(false)) ==> fails(f, ts, vs) is None
            &&& (forall|i: int| !(#[trigger] is_companion(p, f, i))) ==> fails(f, ts, vs) is None
        }
}

/// The abort with a source and a code.
pub open spec fn abort_value(
    source: AbortSource,
    code: Node,
    env: crate::meaning::Env,
    m: crate::meaning::Model,
) -> crate::meaning::Val {
    crate::meaning::eval(Node::MoveAbortValue { source, code: Box::new(code) }, env, m)
}

/// Whether an operation on two values aborts: where the result leaves the range of its
/// type, where a number is divided by zero, and where a number is shifted by its width or
/// more.
pub open spec fn operation_fails(
    op: BinOp,
    a: crate::meaning::Val,
    b: crate::meaning::Val,
    a_type: Option<Ty>,
    b_type: Option<Ty>,
    m: crate::meaning::Model,
) -> bool {
    match op {
        BinOp::Add | BinOp::Sub | BinOp::Mul => (m.overflows)(op, a, b),
        BinOp::Div | BinOp::Mod => a_type matches Some(Ty::UInt(_)) && crate::meaning::number(b)
            == 0,
        BinOp::Shl | BinOp::Shr => a_type matches Some(Ty::UInt(width)) && b_type matches Some(
            Ty::UInt(_),
        ) && !(width >= 256) && crate::meaning::number(b) >= width,
        _ => false,
    }
}

/// Whether a cast of a value aborts: where a number does not fit a smaller width.
pub open spec fn cast_fails(op: UnOp, a: crate::meaning::Val, a_type: Option<Ty>) -> bool {
    op matches UnOp::Cast(target) && a_type matches Some(Ty::UInt(source)) && !(target >= source)
        && !(target >= 256) && crate::meaning::number(a) >= pow2(target as nat)
}

/// The abort that the evaluation of an expression ends in, if any. Operands are evaluated
/// before operations, from the left to the right; of a branch the side is evaluated that
/// the condition selects, and of a match the case of the value.
pub open spec fn failure(
    n: Node,
    env: crate::meaning::Env,
    vars: crate::scope::Vars,
    p: Prog,
    skip: Seq<FunctionID>,
    fails: Failing,
    m: crate::meaning::Model,
) -> Option<crate::meaning::Val>
    decreases n,
{
    let arithmetic = abort_value(AbortSource::Arithmetic, zero_code(), env, m);
    match n {
        Node::BinOp { op, lhs, rhs } => sooner(
            failure(*lhs, env, vars, p, skip, fails, m),
            sooner(
                failure(*rhs, env, vars, p, skip, fails, m),
                if operation_fails(
                    op,
                    crate::meaning::eval(*lhs, env, m),
                    crate::meaning::eval(*rhs, env, m),
                    crate::scope::type_of(*lhs, vars, p),
                    crate::scope::type_of(*rhs, vars, p),
                    m,
                ) {
                    Some(arithmetic)
                } else {
                    None
                },
            ),
        ),
        Node::UnOp { op, operand } => sooner(
            failure(*operand, env, vars, p, skip, fails, m),
            if cast_fails(
                op,
                crate::meaning::eval(*operand, env, m),
                crate::scope::type_of(*operand, vars, p),
            ) {
                Some(arithmetic)
            } else {
                None
            },
        ),
        Node::Call { function, type_args, args } => sooner(
            failure_among(args, env, vars, p, skip, fails, m, true),
            if p.has(function) && !aborts_name(p.func(function).name) && !skip.contains(
                function,
            ) {
                fails(function, type_args, crate::meaning::values(n, env, m))
            } else {
                None
            },
        ),
        Node::Pack { fields, .. } => failure_among(fields, env, vars, p, skip, fails, m, false),
        Node::Tuple(elems) => failure_among(elems, env, vars, p, skip, fails, m, false),
        Node::Field { base, .. } => failure(*base, env, vars, p, skip, fails, m),
        Node::Unpack { value, .. } => failure(*value, env, vars, p, skip, fails, m),
        Node::Let { pattern, value, body } => sooner(
            failure(*value, env, vars, p, skip, fails, m),
            failure(
                *body,
                crate::meaning::bound(env, pattern, crate::meaning::eval(*value, env, m)),
                crate::scope::bound(vars, pattern, crate::scope::type_of(*value, vars, p)),
                p,
                skip,
                fails,
                m,
            ),
        ),
        Node::If { cond, then_branch, else_branch } => sooner(
            failure(*cond, env, vars, p, skip, fails, m),
            if crate::meaning::truth(crate::meaning::eval(*cond, env, m)) {
                failure(*then_branch, env, vars, p, skip, fails, m)
            } else {
                failure(*else_branch, env, vars, p, skip, fails, m)
            },
        ),
        Node::Match { scrutinee, cases } => {
            let (tag, vs) = (m.variant)(crate::meaning::eval(*scrutinee, env, m));
            let later = match crate::meaning::case_for(cases, tag) {
                Some(i) => failure_in_case(
                    cases,
                    i,
                    vs,
                    env,
                    crate::scope::type_of(*scrutinee, vars, p),
                    vars,
                    p,
                    skip,
                    fails,
                    m,
                ),
                None => None,
            };
            sooner(failure(*scrutinee, env, vars, p, skip, fails, m), later)
        },
        Node::MatchOption { scrutinee, binding, some_branch, none_branch } => sooner(
            failure(*scrutinee, env, vars, p, skip, fails, m),
            match held(crate::meaning::eval(*scrutinee, env, m)) {
                Some(v) => failure(
                    *some_branch,
                    crate::meaning::set(env, binding, v),
                    vars.push((binding, Ty::TypeParameter(0))),
                    p,
                    skip,
                    fails,
                    m,
                ),
                None => failure(*none_branch, env, vars, p, skip, fails, m),
            },
        ),
        Node::UpdateField { base, value, .. } => sooner(
            failure(*base, env, vars, p, skip, fails, m),
            failure(*value, env, vars, p, skip, fails, m),
        ),
        Node::UpdateVec { base, index, value } => sooner(
            failure(*base, env, vars, p, skip, fails, m),
            sooner(
                failure(*index, env, vars, p, skip, fails, m),
                failure(*value, env, vars, p, skip, fails, m),
            ),
        ),
        Node::WriteRef { reference, value } => sooner(
            failure(*reference, env, vars, p, skip, fails, m),
            failure(*value, env, vars, p, skip, fails, m),
        ),
        Node::ReadRef(inner) => failure(*inner, env, vars, p, skip, fails, m),
        Node::MutableBorrow { val_expr, .. } => failure(*val_expr, env, vars, p, skip, fails, m),
        Node::ToProp(inner) => failure(*inner, env, vars, p, skip, fails, m),
        Node::ToBool(inner) => failure(*inner, env, vars, p, skip, fails, m),
        Node::OptionSome(inner) => failure(*inner, env, vars, p, skip, fails, m),
        Node::Abort { code } => Some(
            abort_value(
                AbortSource::UserAssert,
                match code {
                    Some(c) => *c,
                    None => zero_code(),
                },
                env,
                m,
            ),
        ),
        _ => None,
    }
}

/// The abort that the evaluation of expressions in order ends in, if any. Where they are
/// arguments, a bare abort among them stands for a proof.
pub open spec fn failure_among(
    s: Seq<Node>,
    env: crate::meaning::Env,
    vars: crate::scope::Vars,
    p: Prog,
    skip: Seq<FunctionID>,
    fails: Failing,
    m: crate::meaning::Model,
    arguments: bool,
) -> Option<crate::meaning::Val>
    decreases s,
{
    if s.len() == 0 {
        None
    } else {
        let before = failure_among(
            s.subrange(0, s.len() - 1),
            env,
            vars,
            p,
            skip,
            fails,
            m,
            arguments,
        );
        let last = s[s.len() - 1];
        sooner(
            before,
            if arguments && last is Abort {
                None
            } else {
                failure(last, env, vars, p, skip, fails, m)
            },
        )
    }
}

/// The abort that the evaluation of a case ends in, if any.
pub open spec fn failure_in_case(
    cases: Seq<(usize, Seq<Name>, Node)>,
    i: int,
    vs: Seq<crate::meaning::Val>,
    env: crate::meaning::Env,
    scrutinee: Option<Ty>,
    vars: crate::scope::Vars,
    p: Prog,
    skip: Seq<FunctionID>,
    fails: Failing,
    m: crate::meaning::Model,
) -> Option<crate::meaning::Val>
    decreases cases,
{
    if 0 <= i < cases.len() {
        failure(
            cases[i].2,
            crate::meaning::set_all(env, cases[i].1, vs, cases[i].1.len()),
            crate::scope::case_vars(p, vars, scrutinee, cases[i].0, cases[i].1),
            p,
            skip,
            fails,
            m,
        )
    } else {
        None
    }
}

/// What a chain of two options holds.
pub proof fn law_chain_holds_the_sooner(
    a: Node,
    b: Node,
    env: crate::meaning::Env,
    m: crate::meaning::Model,
)
    ensures
        held(crate::meaning::eval(chained(a, b), env, m)) == sooner(
            held(crate::meaning::eval(a, env, m)),
            held(crate::meaning::eval(b, env, m)),
        ),
        held(crate::meaning::eval(or_else(a, b), env, m)) == sooner(
            held(crate::meaning::eval(a, env, m)),
            held(crate::meaning::eval(b, env, m)),
        ),
{
    lemma_handed_on(a, b, env, m);
    if b is OptionNone {
        assert(held(crate::meaning::eval(b, env, m)) is None);
    }
}

/// What a match that hands an abort on holds.
proof fn lemma_handed_on(a: Node, b: Node, env: crate::meaning::Env, m: crate::meaning::Model)
    ensures
        held(crate::meaning::eval(or_else(a, b), env, m)) == sooner(
            held(crate::meaning::eval(a, env, m)),
            held(crate::meaning::eval(b, env, m)),
        ),
{
    let x = "__abort"@;
    let v = Node::Var(x);
    let some = Node::OptionSome(Box::new(v));
    crate::meaning::lemma_match_option(a, x, some, b, env, m);
    assert(x != "_"@) by {
        reveal_strlit("__abort");
        reveal_strlit("_");
        assert(x.len() != "_"@.len());
    }
    if let crate::meaning::Val::Just(w) = crate::meaning::eval(a, env, m) {
        let e = crate::meaning::set(env, x, *w);
        assert(crate::meaning::eval(v, e, m) == *w);
        assert(crate::meaning::eval(some, e, m) == crate::meaning::Val::Just(w));
    }
}

/// An arithmetic abort is one where its condition holds.
proof fn lemma_abort_if(c: Node, env: crate::meaning::Env, m: crate::meaning::Model)
    ensures
        held(crate::meaning::eval(abort_if(c), env, m)) == if crate::meaning::truth(
            crate::meaning::eval(c, env, m),
        ) {
            Some(abort_value(AbortSource::Arithmetic, zero_code(), env, m))
        } else {
            None
        },
{
    let v = Node::MoveAbortValue {
        source: AbortSource::Arithmetic,
        code: Box::new(zero_code()),
    };
    assert(crate::meaning::eval(arithmetic_abort(), env, m) == crate::meaning::Val::Just(
        Box::new(crate::meaning::eval(v, env, m)),
    ));
    assert(crate::meaning::eval(Node::OptionNone, env, m) == crate::meaning::Val::Nothing);
}

/// A check of an operation finds an abort exactly where the operation aborts.
pub proof fn law_checks_find_what_fails(
    op: BinOp,
    cast: UnOp,
    a: Node,
    b: Node,
    a_type: Option<Ty>,
    b_type: Option<Ty>,
    env: crate::meaning::Env,
    m: crate::meaning::Model,
)
    ensures
        held(crate::meaning::eval(binop_check(op, a, b, a_type, b_type), env, m))
            == if operation_fails(
            op,
            crate::meaning::eval(a, env, m),
            crate::meaning::eval(b, env, m),
            a_type,
            b_type,
            m,
        ) {
            Some(abort_value(AbortSource::Arithmetic, zero_code(), env, m))
        } else {
            None
        },
        held(crate::meaning::eval(unop_check(cast, a, a_type), env, m)) == if cast_fails(
            cast,
            crate::meaning::eval(a, env, m),
            a_type,
        ) {
            Some(abort_value(AbortSource::Arithmetic, zero_code(), env, m))
        } else {
            None
        },
{
    let overflow = Node::ArithOverflowCheck { op, lhs: Box::new(a), rhs: Box::new(b) };
    lemma_abort_if(overflow, env, m);
    if let Some(Ty::UInt(bits)) = a_type {
        let zero = Node::Const(Lit::UInt { bits: bits as usize, value: 0 });
        let c = Node::BinOp { op: BinOp::Eq, lhs: Box::new(b), rhs: Box::new(zero) };
        lemma_abort_if(c, env, m);
        assert(crate::meaning::eval(zero, env, m) == crate::meaning::Val::Num(0));
        if let Some(Ty::UInt(width)) = b_type {
            let limit = Node::Const(Lit::UInt { bits: width as usize, value: bits as nat });
            let d = Node::BinOp { op: BinOp::Ge, lhs: Box::new(b), rhs: Box::new(limit) };
            lemma_abort_if(d, env, m);
            assert(crate::meaning::eval(limit, env, m) == crate::meaning::Val::Num(bits as nat));
        }
        if let UnOp::Cast(target) = cast {
            let limit = Node::Const(
                Lit::UInt { bits: bits as usize, value: pow2(target as nat) },
            );
            let d = Node::BinOp { op: BinOp::Ge, lhs: Box::new(a), rhs: Box::new(limit) };
            lemma_abort_if(d, env, m);
            assert(crate::meaning::eval(limit, env, m) == crate::meaning::Val::Num(
                pow2(target as nat),
            ));
        }
    }
}

/// How a call of a function aborts is what its companion says.
proof fn lemma_callee_check(
    p: Prog,
    skip: Seq<FunctionID>,
    n: Node,
    env: crate::meaning::Env,
    fails: Failing,
    m: crate::meaning::Model,
)
    requires
        n is Call,
        companions_speak(p, fails, m),
        crate::dependency_order::numbers(p.functions).no_duplicates(),
    ensures
        ({
            let f = n->Call_function;
            held(
                crate::meaning::eval(
                    callee_check(p, skip, f, n->Call_type_args, n->Call_args),
                    env,
                    m,
                ),
            ) == if p.has(f) && !aborts_name(p.func(f).name) && !skip.contains(f) {
                fails(f, n->Call_type_args, crate::meaning::values(n, env, m))
            } else {
                None
            }
        }),
{
    let f = n->Call_function;
    let ts = n->Call_type_args;
    let vs = crate::meaning::values(n, env, m);
    let all = derived_ids(p);
    let told = fails(f, ts, vs);
    if p.has(f) && !aborts_name(p.func(f).name) && !skip.contains(f) {
        let pick = is_named(p.func(f).module_id, p.func(f).name + ".aborts"@);
        let ids = crate::threading::selected(p.functions, pick);
        crate::threading::lemma_selected_exist(p.functions, pick);
        if ids.len() > 0 {
            assert(ids[ids.len() - 1] == ids.last());
            let i = choose|i: int|
                0 <= i < p.functions.len() && (#[trigger] p.functions[i]).0 == ids[ids.len() - 1]
                    && pick(p.functions[i].0, p.functions[i].1);
            assert(is_companion(p, f, i));
            assert(held((m.call)(p.functions[i].0, ts, vs)) == told);
        } else {
            assert forall|i: int| !(#[trigger] is_companion(p, f, i)) by {
                if is_companion(p, f, i) {
                    lemma_selected_has(p.functions, pick, i);
                }
            }
        }
        if all.contains(f) {
            lemma_derived_name(p, f);
        }
        if let Some(a) = companion_of(p, f) {
            let call = Node::Call { function: a, type_args: ts, args: n->Call_args };
            law_chain_holds_the_sooner(call, Node::OptionNone, env, m);
            assert(call.kids() =~= n.kids());
            assert(crate::meaning::values(call, env, m) =~= vs);
        }
    }
}

/// A function that is chosen is among those that are.
proof fn lemma_selected_has(
    fs: Seq<(FunctionID, Func)>,
    pick: spec_fn(FunctionID, Func) -> bool,
    i: int,
)
    requires
        0 <= i < fs.len(),
        pick(fs[i].0, fs[i].1),
    ensures
        crate::threading::selected(fs, pick).len() > 0,
    decreases fs.len(),
{
    if i < fs.len() - 1 {
        assert(fs.drop_last()[i] == fs[i]);
        lemma_selected_has(fs.drop_last(), pick, i);
    }
}

/// A companion that is derived is named as one.
proof fn lemma_derived_name(p: Prog, f: FunctionID)
    requires
        derived_ids(p).contains(f),
        crate::dependency_order::numbers(p.functions).no_duplicates(),
    ensures
        p.has(f) && aborts_name(p.func(f).name),
{
    let all = derived_ids(p);
    crate::threading::lemma_selected_exist(p.functions, is_derived());
    let k = choose|k: int| 0 <= k < all.len() && all[k] == f;
    let i = choose|i: int|
        0 <= i < p.functions.len() && (#[trigger] p.functions[i]).0 == all[k] && is_derived()(
            p.functions[i].0,
            p.functions[i].1,
        );
    let ns = crate::dependency_order::numbers(p.functions);
    assert forall|j: int| 0 <= j < i implies (#[trigger] p.functions[j]).0 != f by {
        assert(ns[j] != ns[i]);
    }
    assert(crate::program::is_slot(p.functions, f, i));
    crate::program::lemma_slot(p.functions, f, i);
}

/// Whether the option that is derived from an expression holds the abort that its
/// evaluation ends in.
pub open spec fn is_failure_of(
    n: Node,
    env: crate::meaning::Env,
    vars: crate::scope::Vars,
    p: Prog,
    skip: Seq<FunctionID>,
    fails: Failing,
    m: crate::meaning::Model,
) -> bool {
    held(crate::meaning::eval(first_abort(n, vars, p, skip), env, m)) == failure(
        n,
        env,
        vars,
        p,
        skip,
        fails,
        m,
    )
}

/// The abort of a binary operation.
proof fn lemma_binop_fails(
    n: Node,
    env: crate::meaning::Env,
    vars: crate::scope::Vars,
    p: Prog,
    skip: Seq<FunctionID>,
    fails: Failing,
    m: crate::meaning::Model,
)
    requires
        n is BinOp,
        is_failure_of(*n->BinOp_lhs, env, vars, p, skip, fails, m),
        is_failure_of(*n->BinOp_rhs, env, vars, p, skip, fails, m),
    ensures
        is_failure_of(n, env, vars, p, skip, fails, m),
{
    if let Node::BinOp { op, lhs, rhs } = n {
        let (s, t) = (
            crate::scope::type_of(*lhs, vars, p),
            crate::scope::type_of(*rhs, vars, p),
        );
        let own = binop_check(op, *lhs, *rhs, s, t);
        let (a, b) = (first_abort(*lhs, vars, p, skip), first_abort(*rhs, vars, p, skip));
        law_chain_holds_the_sooner(a, chained(b, own), env, m);
        law_chain_holds_the_sooner(b, own, env, m);
        law_checks_find_what_fails(op, UnOp::Not, *lhs, *rhs, s, t, env, m);
        assert(first_abort(n, vars, p, skip) == chained(a, chained(b, own)));
    }
}

/// The abort of a unary operation.
proof fn lemma_unop_fails(
    n: Node,
    env: crate::meaning::Env,
    vars: crate::scope::Vars,
    p: Prog,
    skip: Seq<FunctionID>,
    fails: Failing,
    m: crate::meaning::Model,
)
    requires
        n is UnOp,
        is_failure_of(*n->UnOp_operand, env, vars, p, skip, fails, m),
    ensures
        is_failure_of(n, env, vars, p, skip, fails, m),
{
    if let Node::UnOp { op, operand } = n {
        let t = crate::scope::type_of(*operand, vars, p);
        let a = first_abort(*operand, vars, p, skip);
        let own = unop_check(op, *operand, t);
        law_chain_holds_the_sooner(a, own, env, m);
        law_checks_find_what_fails(BinOp::And, op, *operand, *operand, t, t, env, m);
        assert(first_abort(n, vars, p, skip) == chained(a, own));
    }
}

/// The abort of a call.
proof fn lemma_call_fails(
    n: Node,
    env: crate::meaning::Env,
    vars: crate::scope::Vars,
    p: Prog,
    skip: Seq<FunctionID>,
    fails: Failing,
    m: crate::meaning::Model,
)
    requires
        n is Call,
        companions_speak(p, fails, m),
        crate::dependency_order::numbers(p.functions).no_duplicates(),
        held(
            crate::meaning::eval(
                first_abort_among(n->Call_args, vars, p, skip, true),
                env,
                m,
            ),
        ) == failure_among(n->Call_args, env, vars, p, skip, fails, m, true),
    ensures
        is_failure_of(n, env, vars, p, skip, fails, m),
{
    if let Node::Call { function, type_args, args } = n {
        let a = first_abort_among(args, vars, p, skip, true);
        let own = callee_check(p, skip, function, type_args, args);
        lemma_callee_check(p, skip, n, env, fails, m);
        law_chain_holds_the_sooner(a, own, env, m);
        assert(first_abort(n, vars, p, skip) == chained(a, own));
    }
}

/// The abort of a binding.
proof fn lemma_let_fails(
    n: Node,
    env: crate::meaning::Env,
    vars: crate::scope::Vars,
    p: Prog,
    skip: Seq<FunctionID>,
    fails: Failing,
    m: crate::meaning::Model,
)
    requires
        n is Let,
        is_failure_of(*n->Let_value, env, vars, p, skip, fails, m),
        is_failure_of(
            *n->Let_body,
            crate::meaning::bound(
                env,
                n->Let_pattern,
                crate::meaning::eval(*n->Let_value, env, m),
            ),
            crate::scope::bound(
                vars,
                n->Let_pattern,
                crate::scope::type_of(*n->Let_value, vars, p),
            ),
            p,
            skip,
            fails,
            m,
        ),
    ensures
        is_failure_of(n, env, vars, p, skip, fails, m),
{
    if let Node::Let { pattern, value, body } = n {
        let vs = crate::scope::bound(vars, pattern, crate::scope::type_of(*value, vars, p));
        let a = first_abort(*value, vars, p, skip);
        let b = first_abort(*body, vs, p, skip);
        let rest = Node::Let { pattern, value, body: Box::new(b) };
        let e = crate::meaning::bound(env, pattern, crate::meaning::eval(*value, env, m));
        law_chain_holds_the_sooner(a, rest, env, m);
        assert(crate::meaning::eval(rest, env, m) == crate::meaning::eval(b, e, m));
        assert(first_abort(n, vars, p, skip) == chained(a, rest));
    }
}

/// The abort of a branch: of the condition, or of the side that it selects.
proof fn lemma_if_fails(
    n: Node,
    env: crate::meaning::Env,
    vars: crate::scope::Vars,
    p: Prog,
    skip: Seq<FunctionID>,
    fails: Failing,
    m: crate::meaning::Model,
)
    requires
        n is If,
        is_failure_of(*n->If_cond, env, vars, p, skip, fails, m),
        is_failure_of(*n->If_then_branch, env, vars, p, skip, fails, m),
        is_failure_of(*n->If_else_branch, env, vars, p, skip, fails, m),
    ensures
        is_failure_of(n, env, vars, p, skip, fails, m),
{
    if let Node::If { cond, then_branch, else_branch } = n {
        let a = first_abort(*cond, vars, p, skip);
        let t = first_abort(*then_branch, vars, p, skip);
        let e = first_abort(*else_branch, vars, p, skip);
        let rest = Node::If { cond, then_branch: Box::new(t), else_branch: Box::new(e) };
        law_chain_holds_the_sooner(a, rest, env, m);
        assert(crate::meaning::eval(rest, env, m) == if crate::meaning::truth(
            crate::meaning::eval(*cond, env, m),
        ) {
            crate::meaning::eval(t, env, m)
        } else {
            crate::meaning::eval(e, env, m)
        });
        assert(first_abort(n, vars, p, skip) == chained(a, rest));
    }
}

/// The abort of a match on an option.
proof fn lemma_match_option_fails(
    n: Node,
    env: crate::meaning::Env,
    vars: crate::scope::Vars,
    p: Prog,
    skip: Seq<FunctionID>,
    fails: Failing,
    m: crate::meaning::Model,
)
    requires
        n is MatchOption,
        is_failure_of(*n->MatchOption_scrutinee, env, vars, p, skip, fails, m),
        is_failure_of(*n->MatchOption_none_branch, env, vars, p, skip, fails, m),
        held(crate::meaning::eval(*n->MatchOption_scrutinee, env, m)) matches Some(v)
            ==> is_failure_of(
            *n->MatchOption_some_branch,
            crate::meaning::set(env, n->MatchOption_binding, v),
            vars.push((n->MatchOption_binding, Ty::TypeParameter(0))),
            p,
            skip,
            fails,
            m,
        ),
    ensures
        is_failure_of(n, env, vars, p, skip, fails, m),
{
    if let Node::MatchOption { scrutinee, binding, some_branch, none_branch } = n {
        let vs = vars.push((binding, Ty::TypeParameter(0)));
        let a = first_abort(*scrutinee, vars, p, skip);
        let t = first_abort(*some_branch, vs, p, skip);
        let e = first_abort(*none_branch, vars, p, skip);
        let rest = Node::MatchOption {
            scrutinee,
            binding,
            some_branch: Box::new(t),
            none_branch: Box::new(e),
        };
        law_chain_holds_the_sooner(a, rest, env, m);
        crate::meaning::lemma_match_option(*scrutinee, binding, t, e, env, m);
        assert(first_abort(n, vars, p, skip) == chained(a, rest));
    }
}

/// The abort of a match.
proof fn lemma_match_fails(
    n: Node,
    env: crate::meaning::Env,
    vars: crate::scope::Vars,
    p: Prog,
    skip: Seq<FunctionID>,
    fails: Failing,
    m: crate::meaning::Model,
)
    requires
        n is Match,
        is_failure_of(*n->Match_scrutinee, env, vars, p, skip, fails, m),
        ({
            let (tag, vs) = (m.variant)(crate::meaning::eval(*n->Match_scrutinee, env, m));
            crate::meaning::case_for(n->Match_cases, tag) matches Some(i) ==> is_failure_of(
                n->Match_cases[i].2,
                crate::meaning::set_all(
                    env,
                    n->Match_cases[i].1,
                    vs,
                    n->Match_cases[i].1.len(),
                ),
                crate::scope::case_vars(
                    p,
                    vars,
                    crate::scope::type_of(*n->Match_scrutinee, vars, p),
                    n->Match_cases[i].0,
                    n->Match_cases[i].1,
                ),
                p,
                skip,
                fails,
                m,
            )
        }),
    ensures
        is_failure_of(n, env, vars, p, skip, fails, m),
{
    if let Node::Match { scrutinee, cases } = n {
        let t = crate::scope::type_of(*scrutinee, vars, p);
        let a = first_abort(*scrutinee, vars, p, skip);
        let cs = first_abort_cases(cases, t, vars, p, skip);
        let rest = Node::Match { scrutinee, cases: cs };
        let (tag, vs) = (m.variant)(crate::meaning::eval(*scrutinee, env, m));
        law_chain_holds_the_sooner(a, rest, env, m);
        crate::meaning::lemma_case_for(cases, cs, tag);
        crate::meaning::lemma_match(*scrutinee, cs, env, m);
        assert(first_abort(n, vars, p, skip) == chained(a, rest));
        if let Some(i) = crate::meaning::case_for(cases, tag) {
            assert(cs[i].1 == cases[i].1);
            assert(failure_in_case(cases, i, vs, env, t, vars, p, skip, fails, m) == failure(
                cases[i].2,
                crate::meaning::set_all(env, cases[i].1, vs, cases[i].1.len()),
                crate::scope::case_vars(p, vars, t, cases[i].0, cases[i].1),
                p,
                skip,
                fails,
                m,
            ));
        }
    }
}

/// The abort of an operation on two or three values that does not abort itself.
proof fn lemma_parts_fail(
    n: Node,
    env: crate::meaning::Env,
    vars: crate::scope::Vars,
    p: Prog,
    skip: Seq<FunctionID>,
    fails: Failing,
    m: crate::meaning::Model,
)
    requires
        n is UpdateField || n is UpdateVec || n is WriteRef,
        forall|i: int|
            0 <= i < n.kids().len() ==> is_failure_of(
                #[trigger] n.kids()[i],
                env,
                vars,
                p,
                skip,
                fails,
                m,
            ),
    ensures
        is_failure_of(n, env, vars, p, skip, fails, m),
{
    let a = first_abort(n.kids()[0], vars, p, skip);
    let b = first_abort(n.kids()[1], vars, p, skip);
    assert(is_failure_of(n.kids()[0], env, vars, p, skip, fails, m));
    assert(is_failure_of(n.kids()[1], env, vars, p, skip, fails, m));
    if n is UpdateVec {
        let c = first_abort(n.kids()[2], vars, p, skip);
        assert(is_failure_of(n.kids()[2], env, vars, p, skip, fails, m));
        law_chain_holds_the_sooner(a, chained(b, c), env, m);
        law_chain_holds_the_sooner(b, c, env, m);
        assert(first_abort(n, vars, p, skip) == chained(a, chained(b, c)));
    } else {
        law_chain_holds_the_sooner(a, b, env, m);
        assert(first_abort(n, vars, p, skip) == chained(a, b));
    }
}

/// The abort of an explicit abort.
proof fn lemma_abort_fails(
    n: Node,
    env: crate::meaning::Env,
    vars: crate::scope::Vars,
    p: Prog,
    skip: Seq<FunctionID>,
    fails: Failing,
    m: crate::meaning::Model,
)
    requires
        n is Abort,
    ensures
        is_failure_of(n, env, vars, p, skip, fails, m),
{
    if let Node::Abort { code } = n {
        let c = match code {
            Some(c) => *c,
            None => zero_code(),
        };
        lemma_assertion_abort(c, env, m);
        assert(first_abort(n, vars, p, skip) == assertion_abort(c));
    }
}

/// The option that is derived from an expression holds the abort that its evaluation ends
/// in, and none where it does not abort.
pub proof fn law_derived_option_is_the_failure(
    n: Node,
    env: crate::meaning::Env,
    vars: crate::scope::Vars,
    p: Prog,
    skip: Seq<FunctionID>,
    fails: Failing,
    m: crate::meaning::Model,
)
    requires
        companions_speak(p, fails, m),
        crate::dependency_order::numbers(p.functions).no_duplicates(),
    ensures
        is_failure_of(n, env, vars, p, skip, fails, m),
    decreases n,
{
    match n {
        Node::BinOp { op, lhs, rhs } => {
            law_derived_option_is_the_failure(*lhs, env, vars, p, skip, fails, m);
            law_derived_option_is_the_failure(*rhs, env, vars, p, skip, fails, m);
            lemma_binop_fails(n, env, vars, p, skip, fails, m);
        },
        Node::UnOp { op, operand } => {
            law_derived_option_is_the_failure(*operand, env, vars, p, skip, fails, m);
            lemma_unop_fails(n, env, vars, p, skip, fails, m);
        },
        Node::Call { function, type_args, args } => {
            lemma_failure_among(args, env, vars, p, skip, fails, m, true);
            lemma_call_fails(n, env, vars, p, skip, fails, m);
        },
        Node::Pack { fields, .. } => {
            lemma_failure_among(fields, env, vars, p, skip, fails, m, false);
        },
        Node::Tuple(elems) => {
            lemma_failure_among(elems, env, vars, p, skip, fails, m, false);
        },
        Node::Let { pattern, value, body } => {
            law_derived_option_is_the_failure(*value, env, vars, p, skip, fails, m);
            law_derived_option_is_the_failure(
                *body,
                crate::meaning::bound(env, pattern, crate::meaning::eval(*value, env, m)),
                crate::scope::bound(vars, pattern, crate::scope::type_of(*value, vars, p)),
                p,
                skip,
                fails,
                m,
            );
            lemma_let_fails(n, env, vars, p, skip, fails, m);
        },
        Node::If { cond, then_branch, else_branch } => {
            law_derived_option_is_the_failure(*cond, env, vars, p, skip, fails, m);
            law_derived_option_is_the_failure(*then_branch, env, vars, p, skip, fails, m);
            law_derived_option_is_the_failure(*else_branch, env, vars, p, skip, fails, m);
            lemma_if_fails(n, env, vars, p, skip, fails, m);
        },
        Node::Match { scrutinee, cases } => {
            let (tag, vs) = (m.variant)(crate::meaning::eval(*scrutinee, env, m));
            law_derived_option_is_the_failure(*scrutinee, env, vars, p, skip, fails, m);
            crate::meaning::lemma_case_for(cases, cases, tag);
            if let Some(i) = crate::meaning::case_for(cases, tag) {
                assert(decreases_to!(cases => cases[i]));
                law_derived_option_is_the_failure(
                    cases[i].2,
                    crate::meaning::set_all(env, cases[i].1, vs, cases[i].1.len()),
                    crate::scope::case_vars(
                        p,
                        vars,
                        crate::scope::type_of(*scrutinee, vars, p),
                        cases[i].0,
                        cases[i].1,
                    ),
                    p,
                    skip,
                    fails,
                    m,
                );
            }
            lemma_match_fails(n, env, vars, p, skip, fails, m);
        },
        Node::MatchOption { scrutinee, binding, some_branch, none_branch } => {
            law_derived_option_is_the_failure(*scrutinee, env, vars, p, skip, fails, m);
            law_derived_option_is_the_failure(*none_branch, env, vars, p, skip, fails, m);
            if let Some(v) = held(crate::meaning::eval(*scrutinee, env, m)) {
                law_derived_option_is_the_failure(
                    *some_branch,
                    crate::meaning::set(env, binding, v),
                    vars.push((binding, Ty::TypeParameter(0))),
                    p,
                    skip,
                    fails,
                    m,
                );
            }
            lemma_match_option_fails(n, env, vars, p, skip, fails, m);
        },
        Node::UpdateField { base, value, .. } => {
            law_derived_option_is_the_failure(*base, env, vars, p, skip, fails, m);
            law_derived_option_is_the_failure(*value, env, vars, p, skip, fails, m);
            assert(n.kids() =~= seq![*base, *value]);
            lemma_parts_fail(n, env, vars, p, skip, fails, m);
        },
        Node::UpdateVec { base, index, value } => {
            law_derived_option_is_the_failure(*base, env, vars, p, skip, fails, m);
            law_derived_option_is_the_failure(*index, env, vars, p, skip, fails, m);
            law_derived_option_is_the_failure(*value, env, vars, p, skip, fails, m);
            assert(n.kids() =~= seq![*base, *index, *value]);
            lemma_parts_fail(n, env, vars, p, skip, fails, m);
        },
        Node::WriteRef { reference, value } => {
            law_derived_option_is_the_failure(*reference, env, vars, p, skip, fails, m);
            law_derived_option_is_the_failure(*value, env, vars, p, skip, fails, m);
            assert(n.kids() =~= seq![*reference, *value]);
            lemma_parts_fail(n, env, vars, p, skip, fails, m);
        },
        Node::Field { base, .. } => {
            law_derived_option_is_the_failure(*base, env, vars, p, skip, fails, m);
        },
        Node::Unpack { value, .. } => {
            law_derived_option_is_the_failure(*value, env, vars, p, skip, fails, m);
        },
        Node::ReadRef(inner) => {
            law_derived_option_is_the_failure(*inner, env, vars, p, skip, fails, m);
        },
        Node::MutableBorrow { val_expr, .. } => {
            law_derived_option_is_the_failure(*val_expr, env, vars, p, skip, fails, m);
        },
        Node::ToProp(inner) => {
            law_derived_option_is_the_failure(*inner, env, vars, p, skip, fails, m);
        },
        Node::ToBool(inner) => {
            law_derived_option_is_the_failure(*inner, env, vars, p, skip, fails, m);
        },
        Node::OptionSome(inner) => {
            law_derived_option_is_the_failure(*inner, env, vars, p, skip, fails, m);
        },
        Node::Abort { .. } => {
            lemma_abort_fails(n, env, vars, p, skip, fails, m);
        },
        _ => {
            assert(first_abort(n, vars, p, skip) is OptionNone);
        },
    }
}

/// The option that is derived from expressions in order holds the abort that their
/// evaluation ends in.
proof fn lemma_failure_among(
    s: Seq<Node>,
    env: crate::meaning::Env,
    vars: crate::scope::Vars,
    p: Prog,
    skip: Seq<FunctionID>,
    fails: Failing,
    m: crate::meaning::Model,
    arguments: bool,
)
    requires
        companions_speak(p, fails, m),
        crate::dependency_order::numbers(p.functions).no_duplicates(),
    ensures
        held(crate::meaning::eval(first_abort_among(s, vars, p, skip, arguments), env, m))
            == failure_among(s, env, vars, p, skip, fails, m, arguments),
    decreases s,
{
    if s.len() > 0 {
        let front = s.subrange(0, s.len() - 1);
        let last = s[s.len() - 1];
        lemma_failure_among(front, env, vars, p, skip, fails, m, arguments);
        if !(arguments && last is Abort) {
            law_derived_option_is_the_failure(last, env, vars, p, skip, fails, m);
            law_chain_holds_the_sooner(
                first_abort_among(front, vars, p, skip, arguments),
                first_abort(last, vars, p, skip),
                env,
                m,
            );
        }
    }
}

/// Dropping what never aborts does not change which abort an option holds.
pub proof fn law_collapsing_keeps_what_is_held(
    n: Node,
    env: crate::meaning::Env,
    m: crate::meaning::Model,
)
    ensures
        held(crate::meaning::eval(collapsed(n), env, m)) == held(crate::meaning::eval(n, env, m)),
    decreases n,
{
    match n {
        Node::If { cond, then_branch, else_branch } => {
            law_collapsing_keeps_what_is_held(*then_branch, env, m);
            law_collapsing_keeps_what_is_held(*else_branch, env, m);
        },
        Node::Let { pattern, value, body } => {
            let e = crate::meaning::bound(env, pattern, crate::meaning::eval(*value, env, m));
            law_collapsing_keeps_what_is_held(*body, e, m);
        },
        Node::Match { scrutinee, cases } => {
            let cs = collapsed_cases(cases);
            let (tag, vs) = (m.variant)(crate::meaning::eval(*scrutinee, env, m));
            crate::meaning::lemma_case_for(cases, cs, tag);
            if let Some(i) = crate::meaning::case_for(cases, tag) {
                assert(decreases_to!(cases => cases[i]));
                let e = crate::meaning::set_all(env, cases[i].1, vs, cases[i].1.len());
                law_collapsing_keeps_what_is_held(cases[i].2, e, m);
                assert(cs[i].2 == collapsed(cases[i].2));
            }
            crate::meaning::lemma_match(*scrutinee, cases, env, m);
            crate::meaning::lemma_match(*scrutinee, cs, env, m);
        },
        Node::MatchOption { scrutinee, binding, some_branch, none_branch } => {
            law_collapsing_keeps_what_is_held(*scrutinee, env, m);
            law_collapsing_keeps_what_is_held(*none_branch, env, m);
            if let Some(v) = held(crate::meaning::eval(*scrutinee, env, m)) {
                let e = crate::meaning::set(env, binding, v);
                law_collapsing_keeps_what_is_held(*some_branch, e, m);
            }
            let (o, a, b) = (collapsed(*scrutinee), collapsed(*some_branch), collapsed(
                *none_branch,
            ));
            crate::meaning::lemma_match_option(
                *scrutinee,
                binding,
                *some_branch,
                *none_branch,
                env,
                m,
            );
            crate::meaning::lemma_match_option(o, binding, a, b, env, m);
            if is_abort_chain(binding, a) && b is OptionNone {
                lemma_handed_on(o, b, env, m);
                assert(or_else(o, b) == (Node::MatchOption {
                    scrutinee: Box::new(o),
                    binding,
                    some_branch: Box::new(a),
                    none_branch: Box::new(b),
                }));
            }
        },
        _ => {},
    }
}

/// The abort that an abort condition says, if any. A branch that is bound to no name says
/// one before what follows it. Calls of the companions in the list say it themselves, or
/// say none where they are left out.
pub open spec fn condition_says(
    n: Node,
    ids: Seq<FunctionID>,
    left_out: bool,
    env: crate::meaning::Env,
    m: crate::meaning::Model,
) -> Option<crate::meaning::Val>
    decreases n,
{
    match n {
        Node::Abort { code } => Some(
            abort_value(
                AbortSource::UserAssert,
                match code {
                    Some(c) => *c,
                    None => zero_code(),
                },
                env,
                m,
            ),
        ),
        Node::If { cond, then_branch, else_branch } => if crate::meaning::truth(
            crate::meaning::eval(*cond, env, m),
        ) {
            condition_says(*then_branch, ids, left_out, env, m)
        } else {
            condition_says(*else_branch, ids, left_out, env, m)
        },
        Node::Match { scrutinee, cases } => {
            let (tag, vs) = (m.variant)(crate::meaning::eval(*scrutinee, env, m));
            match crate::meaning::case_for(cases, tag) {
                Some(i) => case_says(cases, i, vs, ids, left_out, env, m),
                None => None,
            }
        },
        Node::MatchOption { scrutinee, binding, some_branch, none_branch } => match held(
            crate::meaning::eval(*scrutinee, env, m),
        ) {
            Some(v) => condition_says(
                *some_branch,
                ids,
                left_out,
                crate::meaning::set(env, binding, v),
                m,
            ),
            None => condition_says(*none_branch, ids, left_out, env, m),
        },
        Node::Let { pattern, value, body } => {
            let e = crate::meaning::bound(env, pattern, crate::meaning::eval(*value, env, m));
            sooner(
                if all_blank(pattern) && is_branch(*value) {
                    condition_says(*value, ids, left_out, env, m)
                } else {
                    None
                },
                condition_says(*body, ids, left_out, e, m),
            )
        },
        _ => {
            let v = crate::meaning::eval(n, env, m);
            let is_listed = n matches Node::Call { function, .. } && ids.contains(function);
            if is_listed && left_out {
                None
            } else if is_listed {
                held(v)
            } else if crate::meaning::truth(v) {
                Some(abort_value(AbortSource::UserAssert, zero_code(), env, m))
            } else {
                None
            }
        },
    }
}

/// The abort that a case of an abort condition says, if any.
pub open spec fn case_says(
    cases: Seq<(usize, Seq<Name>, Node)>,
    i: int,
    vs: Seq<crate::meaning::Val>,
    ids: Seq<FunctionID>,
    left_out: bool,
    env: crate::meaning::Env,
    m: crate::meaning::Model,
) -> Option<crate::meaning::Val>
    decreases cases,
{
    if 0 <= i < cases.len() {
        condition_says(
            cases[i].2,
            ids,
            left_out,
            crate::meaning::set_all(env, cases[i].1, vs, cases[i].1.len()),
            m,
        )
    } else {
        None
    }
}

/// What an assertion's abort holds.
proof fn lemma_assertion_abort(code: Node, env: crate::meaning::Env, m: crate::meaning::Model)
    ensures
        held(crate::meaning::eval(assertion_abort(code), env, m)) == Some(
            abort_value(AbortSource::UserAssert, code, env, m),
        ),
{
    let v = Node::MoveAbortValue { source: AbortSource::UserAssert, code: Box::new(code) };
    let n = assertion_abort(code);
    assert(crate::meaning::eval(n, env, m) == crate::meaning::Val::Just(
        Box::new(crate::meaning::eval(v, env, m)),
    ));
}

/// Blanks have no values.
proof fn lemma_blanks(
    n: Node,
    pattern: Seq<Name>,
    v: crate::meaning::Val,
    env: crate::meaning::Env,
    m: crate::meaning::Model,
)
    requires
        all_blank(pattern),
    ensures
        crate::meaning::eval(n, crate::meaning::bound(env, pattern, v), m)
            == crate::meaning::eval(n, env, m),
{
    let e = crate::meaning::bound(env, pattern, v);
    assert(crate::meaning::agree(n, e, env)) by {
        assert forall|x: Name| #[trigger] n.free(x) && x != "_"@ implies e(x) == env(x) by {
            crate::meaning::lemma_bound(env, env, pattern, v, x);
        }
    }
    crate::meaning::lemma_agree(n, e, env, m);
}

/// An abort condition, made into an option, holds the abort that the condition says.
pub proof fn law_lifted_holds_what_the_condition_says(
    n: Node,
    ids: Seq<FunctionID>,
    left_out: bool,
    env: crate::meaning::Env,
    m: crate::meaning::Model,
)
    ensures
        held(crate::meaning::eval(lifted(n, ids, left_out), env, m)) == condition_says(
            n,
            ids,
            left_out,
            env,
            m,
        ),
    decreases n,
{
    lemma_assertion_abort(zero_code(), env, m);
    match n {
        Node::Abort { code } => {
            if let Some(c) = code {
                lemma_assertion_abort(*c, env, m);
            }
        },
        Node::If { cond, then_branch, else_branch } => {
            law_lifted_holds_what_the_condition_says(*then_branch, ids, left_out, env, m);
            law_lifted_holds_what_the_condition_says(*else_branch, ids, left_out, env, m);
        },
        Node::Match { scrutinee, cases } => {
            let cs = lifted_cases(cases, ids, left_out);
            let (tag, vs) = (m.variant)(crate::meaning::eval(*scrutinee, env, m));
            crate::meaning::lemma_case_for(cases, cs, tag);
            if let Some(i) = crate::meaning::case_for(cases, tag) {
                assert(decreases_to!(cases => cases[i]));
                let e = crate::meaning::set_all(env, cases[i].1, vs, cases[i].1.len());
                law_lifted_holds_what_the_condition_says(cases[i].2, ids, left_out, e, m);
                assert(cs[i].2 == lifted(cases[i].2, ids, left_out));
                assert(case_says(cases, i, vs, ids, left_out, env, m) == condition_says(
                    cases[i].2,
                    ids,
                    left_out,
                    e,
                    m,
                ));
            }
            crate::meaning::lemma_match(*scrutinee, cs, env, m);
            assert(lifted(n, ids, left_out) == (Node::Match { scrutinee, cases: cs }));
        },
        Node::MatchOption { scrutinee, binding, some_branch, none_branch } => {
            law_lifted_holds_what_the_condition_says(*none_branch, ids, left_out, env, m);
            if let Some(v) = held(crate::meaning::eval(*scrutinee, env, m)) {
                let e = crate::meaning::set(env, binding, v);
                law_lifted_holds_what_the_condition_says(*some_branch, ids, left_out, e, m);
            }
            crate::meaning::lemma_match_option(
                *scrutinee,
                binding,
                lifted(*some_branch, ids, left_out),
                lifted(*none_branch, ids, left_out),
                env,
                m,
            );
        },
        Node::Let { pattern, value, body } => {
            let v = crate::meaning::eval(*value, env, m);
            let e = crate::meaning::bound(env, pattern, v);
            law_lifted_holds_what_the_condition_says(*body, ids, left_out, e, m);
            if all_blank(pattern) && is_branch(*value) {
                law_lifted_holds_what_the_condition_says(*value, ids, left_out, env, m);
                let (a, b) = (lifted(*value, ids, left_out), lifted(*body, ids, left_out));
                lemma_blanks(b, pattern, v, env, m);
                law_chain_holds_the_sooner(a, b, env, m);
            }
        },
        Node::Const(Lit::Bool(_)) => {},
        _ => {
            lemma_lifted_leaf(n, ids, left_out, env, m);
        },
    }
}

/// What an abort condition that is no branch says.
proof fn lemma_lifted_leaf(
    n: Node,
    ids: Seq<FunctionID>,
    left_out: bool,
    env: crate::meaning::Env,
    m: crate::meaning::Model,
)
    requires
        !(n is Abort || n is If || n is Match || n is MatchOption || n is Let),
        !(n matches Node::Const(Lit::Bool(_))),
    ensures
        held(crate::meaning::eval(lifted(n, ids, left_out), env, m)) == condition_says(
            n,
            ids,
            left_out,
            env,
            m,
        ),
{
    let some = assertion_abort(zero_code());
    lemma_assertion_abort(zero_code(), env, m);
    if n matches Node::Call { function, .. } && ids.contains(function) {
        assert(lifted(n, ids, left_out) == if left_out {
            Node::OptionNone
        } else {
            n
        });
    } else {
        let r = Node::If {
            cond: Box::new(n),
            then_branch: Box::new(some),
            else_branch: Box::new(Node::OptionNone),
        };
        assert(lifted(n, ids, left_out) == r);
        assert(crate::meaning::eval(r, env, m) == if crate::meaning::truth(
            crate::meaning::eval(n, env, m),
        ) {
            crate::meaning::eval(some, env, m)
        } else {
            crate::meaning::eval(Node::OptionNone, env, m)
        });
    }
}

/// The body that is derived for a companion says how the function it belongs to aborts:
/// it holds the abort that evaluating the function's body ends in; and where that does not
/// abort and the function is not recursive, the abort that the companion said before.
pub proof fn law_companion_says_how_its_function_aborts(
    p: Prog,
    f: Func,
    env: crate::meaning::Env,
    fails: Failing,
    m: crate::meaning::Model,
)
    requires
        companions_speak(p, fails, m),
        crate::dependency_order::numbers(p.functions).no_duplicates(),
        subject_of(p, f) is Some,
        is_closed(p.func(subject_of(p, f)->0)),
        !is_loop_companion(f),
    ensures
        ({
            let id = subject_of(p, f)->0;
            let g = p.func(id);
            held(crate::meaning::eval(derived_body(p, f), env, m)) == sooner(
                failure(
                    g.body,
                    env,
                    crate::scope::param_vars(g.signature.parameters),
                    p,
                    seq![id],
                    fails,
                    m,
                ),
                if g.mutual_group_id is Some || g.body.calls(id) {
                    None
                } else {
                    condition_says(f.body, derived_ids(p), true, env, m)
                },
            )
        }),
{
    let id = subject_of(p, f)->0;
    let g = p.func(id);
    let vars = crate::scope::param_vars(g.signature.parameters);
    let ids = derived_ids(p);
    law_derived_option_is_the_failure(g.body, env, vars, p, seq![id], fails, m);
    law_lifted_holds_what_the_condition_says(f.body, ids, true, env, m);
    law_collapsing_keeps_what_is_held(lifted(f.body, ids, true), env, m);
    law_chain_holds_the_sooner(
        first_abort(g.body, vars, p, seq![id]),
        collapsed(lifted(f.body, ids, true)),
        env,
        m,
    );
}

} // verus!
