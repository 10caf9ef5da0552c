//! The expression trees of the representation.
//!
//! [`IRNode`] is the executable tree; [`Node`] is what it holds, with names as
//! character sequences, numbers as naturals and lists as sequences. The
//! contracts of the passes speak of [`Node`].

use crate::types::{clone_types, same_types, FunctionID, Name, StructID, TempId, Ty, Type};
use crate::word::Word;
use vstd::prelude::*;

verus! {

/// A binary operator.
#[derive(Clone, Copy, Debug, PartialEq, Eq, Structural)]
pub enum BinOp {
    And,
    Or,
    Eq,
    Neq,
    Lt,
    Le,
    Gt,
    Ge,
    Add,
    Sub,
    Mul,
    Div,
    Mod,
    BitAnd,
    BitOr,
    BitXor,
    Shl,
    Shr,
}

/// A unary operator; a cast carries the width of its result.
#[derive(Clone, Copy, Debug, PartialEq, Eq, Structural)]
pub enum UnOp {
    Not,
    BitNot,
    Cast(u32),
}

/// How a written-back child hangs on its parent.
#[derive(Clone, Copy, Debug, PartialEq, Eq, Structural)]
pub enum WriteBackEdge {
    Direct,
    Field { struct_id: StructID, field_index: usize },
}

/// The two quantifiers.
#[derive(Clone, Copy, Debug, PartialEq, Eq, Structural)]
pub enum QuantifierKind {
    Forall,
    Exists,
}

/// What an abort comes from.
#[derive(Clone, Copy, Debug, PartialEq, Eq, Structural)]
pub enum AbortSource {
    UserAssert,
    Arithmetic,
}

/// A literal.
#[derive(Debug)]
pub enum Const {
    Bool(bool),
    UInt { bits: usize, value: Word },
    Address(Word),
    Vector { elem_type: Type, elems: Vec<Const> },
}

/// What a [`Const`] holds.
#[verifier::ext_equal]
pub enum Lit {
    Bool(bool),
    UInt { bits: usize, value: nat },
    Address(nat),
    Vector { elem_type: Ty, elems: Seq<Lit> },
}

/// An operation on the bits of its operands.
#[derive(Debug)]
pub enum BitOp {
    Extract { high: u32, low: u32, operand: Box<IRNode> },
    Concat { high: Box<IRNode>, low: Box<IRNode> },
    ZeroExtend { bits: u32, operand: Box<IRNode> },
    SignExtend { bits: u32, operand: Box<IRNode> },
}

/// What a [`BitOp`] holds.
#[verifier::ext_equal]
pub enum Bits {
    Extract { high: u32, low: u32, operand: Box<Node> },
    Concat { high: Box<Node>, low: Box<Node> },
    ZeroExtend { bits: u32, operand: Box<Node> },
    SignExtend { bits: u32, operand: Box<Node> },
}

/// An expression.
#[derive(Debug)]
pub enum IRNode {
    Var(TempId),
    Const(Const),
    BinOp { op: BinOp, lhs: Box<IRNode>, rhs: Box<IRNode> },
    UnOp { op: UnOp, operand: Box<IRNode> },
    BitOp(BitOp),
    Call { function: FunctionID, type_args: Vec<Type>, args: Vec<IRNode> },
    Pack { struct_id: StructID, type_args: Vec<Type>, fields: Vec<IRNode>, variant_index: Option<usize> },
    Field { struct_id: StructID, field_index: usize, base: Box<IRNode> },
    Unpack { struct_id: StructID, value: Box<IRNode> },
    Tuple(Vec<IRNode>),
    Let { pattern: Vec<TempId>, value: Box<IRNode>, body: Box<IRNode> },
    If { cond: Box<IRNode>, then_branch: Box<IRNode>, else_branch: Box<IRNode> },
    Match { scrutinee: Box<IRNode>, cases: Vec<(usize, Vec<TempId>, IRNode)> },
    MatchOption { scrutinee: Box<IRNode>, binding: TempId, some_branch: Box<IRNode>, none_branch: Box<IRNode> },
    UpdateField { base: Box<IRNode>, struct_id: StructID, field_index: usize, value: Box<IRNode> },
    UpdateVec { base: Box<IRNode>, index: Box<IRNode>, value: Box<IRNode> },
    ReadRef(Box<IRNode>),
    WriteRef { reference: Box<IRNode>, value: Box<IRNode> },
    MutableBorrow { val_expr: Box<IRNode>, reconstruct_param: TempId, reconstruct_expr: Box<IRNode>, state_type: Type },
    WriteBack { child: TempId, parent: TempId, edge: WriteBackEdge },
    MutableCompose { outer: Box<IRNode>, inner: Box<IRNode> },
    Quantifier { kind: QuantifierKind, binding: TempId, binding_type: Type, body: Box<IRNode> },
    ToProp(Box<IRNode>),
    ToBool(Box<IRNode>),
    OptionSome(Box<IRNode>),
    OptionNone,
    Inhabited,
    Abort { code: Option<Box<IRNode>> },
    MoveAbortValue { source: AbortSource, code: Box<IRNode> },
    ArithOverflowCheck { op: BinOp, lhs: Box<IRNode>, rhs: Box<IRNode> },
}

/// What an [`IRNode`] holds.
#[verifier::ext_equal]
pub enum Node {
    Var(Name),
    Const(Lit),
    BinOp { op: BinOp, lhs: Box<Node>, rhs: Box<Node> },
    UnOp { op: UnOp, operand: Box<Node> },
    BitOp(Bits),
    Call { function: FunctionID, type_args: Seq<Ty>, args: Seq<Node> },
    Pack { struct_id: StructID, type_args: Seq<Ty>, fields: Seq<Node>, variant_index: Option<usize> },
    Field { struct_id: StructID, field_index: usize, base: Box<Node> },
    Unpack { struct_id: StructID, value: Box<Node> },
    Tuple(Seq<Node>),
    Let { pattern: Seq<Name>, value: Box<Node>, body: Box<Node> },
    If { cond: Box<Node>, then_branch: Box<Node>, else_branch: Box<Node> },
    Match { scrutinee: Box<Node>, cases: Seq<(usize, Seq<Name>, Node)> },
    MatchOption { scrutinee: Box<Node>, binding: Name, some_branch: Box<Node>, none_branch: Box<Node> },
    UpdateField { base: Box<Node>, struct_id: StructID, field_index: usize, value: Box<Node> },
    UpdateVec { base: Box<Node>, index: Box<Node>, value: Box<Node> },
    ReadRef(Box<Node>),
    WriteRef { reference: Box<Node>, value: Box<Node> },
    MutableBorrow { val_expr: Box<Node>, reconstruct_param: Name, reconstruct_expr: Box<Node>, state_type: Ty },
    WriteBack { child: Name, parent: Name, edge: WriteBackEdge },
    MutableCompose { outer: Box<Node>, inner: Box<Node> },
    Quantifier { kind: QuantifierKind, binding: Name, binding_type: Ty, body: Box<Node> },
    ToProp(Box<Node>),
    ToBool(Box<Node>),
    OptionSome(Box<Node>),
    OptionNone,
    Inhabited,
    Abort { code: Option<Box<Node>> },
    MoveAbortValue { source: AbortSource, code: Box<Node> },
    ArithOverflowCheck { op: BinOp, lhs: Box<Node>, rhs: Box<Node> },
}

/// The contents of each of the names.
pub open spec fn names(s: Seq<TempId>) -> Seq<Name> {
    Seq::new(s.len(), |i: int| s[i]@)
}

impl Const {
    /// What the literal holds.
    pub open spec fn view(&self) -> Lit
        decreases self,
    {
        match *self {
            Const::Bool(b) => Lit::Bool(b),
            Const::UInt { bits, value } => Lit::UInt { bits, value: value@ },
            Const::Address(a) => Lit::Address(a@),
            Const::Vector { elem_type, elems } => Lit::Vector {
                elem_type: elem_type@,
                elems: Const::views(elems@),
            },
        }
    }

    /// What each of the literals holds.
    pub open spec fn views(s: Seq<Const>) -> Seq<Lit>
        decreases s,
    {
        Seq::new(
            s.len(),
            |i: int|
                if 0 <= i < s.len() {
                    s[i].view()
                } else {
                    arbitrary()
                },
        )
    }

    /// Whether two literals are the same.
    pub fn same(&self, other: &Const) -> (r: bool)
        ensures
            r == (self@ == other@),
        decreases self,
    {
        match (self, other) {
            (Const::Bool(a), Const::Bool(b)) => *a == *b,
            (Const::UInt { bits: a, value: v }, Const::UInt { bits: b, value: w }) => *a == *b
                && v.same(w),
            (Const::Address(a), Const::Address(b)) => a.same(b),
            (
                Const::Vector { elem_type: t, elems: a },
                Const::Vector { elem_type: u, elems: b },
            ) => t.same(u) && same_consts(a, b),
            _ => false,
        }
    }
}

/// Whether two lists of literals are the same.
fn same_consts(a: &Vec<Const>, b: &Vec<Const>) -> (r: bool)
    ensures
        r == (Const::views(a@) == Const::views(b@)),
    decreases a,
{
    if a.len() != b.len() {
        assert(Const::views(a@).len() != Const::views(b@).len());
        return false;
    }
    let mut i: usize = 0;
    while i < a.len()
        invariant
            i <= a.len(),
            a.len() == b.len(),
            forall|j: int| 0 <= j < i ==> (#[trigger] a@[j])@ == b@[j]@,
        decreases a.len() - i,
    {
        if !a[i].same(&b[i]) {
            assert(Const::views(a@)[i as int] != Const::views(b@)[i as int]);
            return false;
        }
        i += 1;
    }
    assert(Const::views(a@) =~= Const::views(b@));
    true
}

impl Clone for Const {
    fn clone(&self) -> (r: Self)
        ensures
            r@ == self@,
        decreases self,
    {
        match self {
            Const::Bool(b) => Const::Bool(*b),
            Const::UInt { bits, value } => Const::UInt { bits: *bits, value: *value },
            Const::Address(a) => Const::Address(*a),
            Const::Vector { elem_type, elems } => Const::Vector {
                elem_type: elem_type.clone(),
                elems: clone_consts(elems),
            },
        }
    }
}

/// A copy of a list of literals.
fn clone_consts(cs: &Vec<Const>) -> (r: Vec<Const>)
    ensures
        Const::views(r@) == Const::views(cs@),
    decreases cs,
{
    let mut out: Vec<Const> = Vec::new();
    let mut i: usize = 0;
    while i < cs.len()
        invariant
            i <= cs.len(),
            out.len() == i,
            forall|j: int| 0 <= j < i ==> (#[trigger] out@[j])@ == cs@[j]@,
        decreases cs.len() - i,
    {
        out.push(cs[i].clone());
        i += 1;
    }
    assert(Const::views(out@) =~= Const::views(cs@));
    out
}

impl BitOp {
    /// What the operation holds.
    pub open spec fn view(&self) -> Bits
        decreases self,
    {
        match *self {
            BitOp::Extract { high, low, operand } => Bits::Extract {
                high,
                low,
                operand: Box::new((*operand).view()),
            },
            BitOp::Concat { high, low } => Bits::Concat {
                high: Box::new((*high).view()),
                low: Box::new((*low).view()),
            },
            BitOp::ZeroExtend { bits, operand } => Bits::ZeroExtend {
                bits,
                operand: Box::new((*operand).view()),
            },
            BitOp::SignExtend { bits, operand } => Bits::SignExtend {
                bits,
                operand: Box::new((*operand).view()),
            },
        }
    }
}

impl Bits {
    /// The operands.
    pub open spec fn kids(self) -> Seq<Node> {
        match self {
            Bits::Extract { operand, .. } => seq![*operand],
            Bits::Concat { high, low } => seq![*high, *low],
            Bits::ZeroExtend { operand, .. } => seq![*operand],
            Bits::SignExtend { operand, .. } => seq![*operand],
        }
    }

    /// The same operation on other operands.
    pub open spec fn with_kids(self, ks: Seq<Node>) -> Bits {
        match self {
            Bits::Extract { high, low, .. } => Bits::Extract {
                high,
                low,
                operand: Box::new(ks[0]),
            },
            Bits::Concat { .. } => Bits::Concat { high: Box::new(ks[0]), low: Box::new(ks[1]) },
            Bits::ZeroExtend { bits, .. } => Bits::ZeroExtend { bits, operand: Box::new(ks[0]) },
            Bits::SignExtend { bits, .. } => Bits::SignExtend { bits, operand: Box::new(ks[0]) },
        }
    }
}

impl IRNode {
    /// What the expression holds.
    pub open spec fn view(&self) -> Node
        decreases self,
    {
        match *self {
            IRNode::Var(x) => Node::Var(x@),
            IRNode::Const(x) => Node::Const(x.view()),
            IRNode::BinOp { op, lhs, rhs } => Node::BinOp { op, lhs: Box::new((*lhs).view()), rhs: Box::new((*rhs).view()) },
            IRNode::UnOp { op, operand } => Node::UnOp { op, operand: Box::new((*operand).view()) },
            IRNode::BitOp(x) => Node::BitOp(x.view()),
            IRNode::Call { function, type_args, args } => Node::Call { function, type_args: Type::views(type_args@), args: IRNode::views(args@) },
            IRNode::Pack { struct_id, type_args, fields, variant_index } => Node::Pack { struct_id, type_args: Type::views(type_args@), fields: IRNode::views(fields@), variant_index },
            IRNode::Field { struct_id, field_index, base } => Node::Field { struct_id, field_index, base: Box::new((*base).view()) },
            IRNode::Unpack { struct_id, value } => Node::Unpack { struct_id, value: Box::new((*value).view()) },
            IRNode::Tuple(x) => Node::Tuple(IRNode::views(x@)),
            IRNode::Let { pattern, value, body } => Node::Let { pattern: names(pattern@), value: Box::new((*value).view()), body: Box::new((*body).view()) },
            IRNode::If { cond, then_branch, else_branch } => Node::If { cond: Box::new((*cond).view()), then_branch: Box::new((*then_branch).view()), else_branch: Box::new((*else_branch).view()) },
            IRNode::Match { scrutinee, cases } => Node::Match { scrutinee: Box::new((*scrutinee).view()), cases: IRNode::case_views(cases@) },
            IRNode::MatchOption { scrutinee, binding, some_branch, none_branch } => Node::MatchOption { scrutinee: Box::new((*scrutinee).view()), binding: binding@, some_branch: Box::new((*some_branch).view()), none_branch: Box::new((*none_branch).view()) },
            IRNode::UpdateField { base, struct_id, field_index, value } => Node::UpdateField { base: Box::new((*base).view()), struct_id, field_index, value: Box::new((*value).view()) },
            IRNode::UpdateVec { base, index, value } => Node::UpdateVec { base: Box::new((*base).view()), index: Box::new((*index).view()), value: Box::new((*value).view()) },
            IRNode::ReadRef(x) => Node::ReadRef(Box::new((*x).view())),
            IRNode::WriteRef { reference, value } => Node::WriteRef { reference: Box::new((*reference).view()), value: Box::new((*value).view()) },
            IRNode::MutableBorrow { val_expr, reconstruct_param, reconstruct_expr, state_type } => Node::MutableBorrow { val_expr: Box::new((*val_expr).view()), reconstruct_param: reconstruct_param@, reconstruct_expr: Box::new((*reconstruct_expr).view()), state_type: state_type.view() },
            IRNode::WriteBack { child, parent, edge } => Node::WriteBack { child: child@, parent: parent@, edge },
            IRNode::MutableCompose { outer, inner } => Node::MutableCompose { outer: Box::new((*outer).view()), inner: Box::new((*inner).view()) },
            IRNode::Quantifier { kind, binding, binding_type, body } => Node::Quantifier { kind, binding: binding@, binding_type: binding_type.view(), body: Box::new((*body).view()) },
            IRNode::ToProp(x) => Node::ToProp(Box::new((*x).view())),
            IRNode::ToBool(x) => Node::ToBool(Box::new((*x).view())),
            IRNode::OptionSome(x) => Node::OptionSome(Box::new((*x).view())),
            IRNode::OptionNone => Node::OptionNone,
            IRNode::Inhabited => Node::Inhabited,
            IRNode::Abort { code } => Node::Abort { code: match code { Some(c) => Some(Box::new((*c).view())), None => None } },
            IRNode::MoveAbortValue { source, code } => Node::MoveAbortValue { source, code: Box::new((*code).view()) },
            IRNode::ArithOverflowCheck { op, lhs, rhs } => Node::ArithOverflowCheck { op, lhs: Box::new((*lhs).view()), rhs: Box::new((*rhs).view()) },
        }
    }

    /// What each of the expressions holds.
    pub open spec fn views(s: Seq<IRNode>) -> Seq<Node>
        decreases s,
    {
        Seq::new(
            s.len(),
            |i: int|
                if 0 <= i < s.len() {
                    s[i].view()
                } else {
                    arbitrary()
                },
        )
    }

    /// What each of the cases of a match holds.
    pub open spec fn case_views(s: Seq<(usize, Vec<TempId>, IRNode)>) -> Seq<
        (usize, Seq<Name>, Node),
    >
        decreases s,
    {
        Seq::new(
            s.len(),
            |i: int|
                if 0 <= i < s.len() {
                    (s[i].0, names(s[i].1@), s[i].2.view())
                } else {
                    arbitrary()
                },
        )
    }
}

impl Node {
    /// The direct subexpressions, in evaluation order.
    pub open spec fn kids(self) -> Seq<Node> {
        match self {
            Node::Var(_) => Seq::empty(),
            Node::Const(_) => Seq::empty(),
            Node::BinOp { lhs, rhs, .. } => seq![*lhs, *rhs],
            Node::UnOp { operand, .. } => seq![*operand],
            Node::BitOp(x) => x.kids(),
            Node::Call { args, .. } => args,
            Node::Pack { fields, .. } => fields,
            Node::Field { base, .. } => seq![*base],
            Node::Unpack { value, .. } => seq![*value],
            Node::Tuple(x) => x,
            Node::Let { value, body, .. } => seq![*value, *body],
            Node::If { cond, then_branch, else_branch } => seq![*cond, *then_branch, *else_branch],
            Node::Match { scrutinee, cases } => seq![*scrutinee] + Seq::new(cases.len(), |i: int| cases[i].2),
            Node::MatchOption { scrutinee, some_branch, none_branch, .. } => seq![*scrutinee, *some_branch, *none_branch],
            Node::UpdateField { base, value, .. } => seq![*base, *value],
            Node::UpdateVec { base, index, value } => seq![*base, *index, *value],
            Node::ReadRef(x) => seq![*x],
            Node::WriteRef { reference, value } => seq![*reference, *value],
            Node::MutableBorrow { val_expr, reconstruct_expr, .. } => seq![*val_expr, *reconstruct_expr],
            Node::WriteBack { .. } => Seq::empty(),
            Node::MutableCompose { outer, inner } => seq![*outer, *inner],
            Node::Quantifier { body, .. } => seq![*body],
            Node::ToProp(x) => seq![*x],
            Node::ToBool(x) => seq![*x],
            Node::OptionSome(x) => seq![*x],
            Node::OptionNone => Seq::empty(),
            Node::Inhabited => Seq::empty(),
            Node::Abort { code } => match code { Some(c) => seq![*c], None => Seq::empty() },
            Node::MoveAbortValue { code, .. } => seq![*code],
            Node::ArithOverflowCheck { lhs, rhs, .. } => seq![*lhs, *rhs],
        }
    }

    /// The same expression with other direct subexpressions.
    pub open spec fn with_kids(self, ks: Seq<Node>) -> Node {
        match self {
            Node::Var(x) => Node::Var(x),
            Node::Const(x) => Node::Const(x),
            Node::BinOp { op, .. } => Node::BinOp { op, lhs: Box::new(ks[0]), rhs: Box::new(ks[1]) },
            Node::UnOp { op, .. } => Node::UnOp { op, operand: Box::new(ks[0]) },
            Node::BitOp(x) => Node::BitOp(x.with_kids(ks)),
            Node::Call { function, type_args, .. } => Node::Call { function, type_args, args: ks },
            Node::Pack { struct_id, type_args, variant_index, .. } => Node::Pack { struct_id, type_args, fields: ks, variant_index },
            Node::Field { struct_id, field_index, .. } => Node::Field { struct_id, field_index, base: Box::new(ks[0]) },
            Node::Unpack { struct_id, .. } => Node::Unpack { struct_id, value: Box::new(ks[0]) },
            Node::Tuple(_) => Node::Tuple(ks),
            Node::Let { pattern, .. } => Node::Let { pattern, value: Box::new(ks[0]), body: Box::new(ks[1]) },
            Node::If { .. } => Node::If { cond: Box::new(ks[0]), then_branch: Box::new(ks[1]), else_branch: Box::new(ks[2]) },
            Node::Match { cases, .. } => Node::Match { scrutinee: Box::new(ks[0]), cases: Seq::new(cases.len(), |i: int| (cases[i].0, cases[i].1, ks[i + 1])) },
            Node::MatchOption { binding, .. } => Node::MatchOption { scrutinee: Box::new(ks[0]), binding, some_branch: Box::new(ks[1]), none_branch: Box::new(ks[2]) },
            Node::UpdateField { struct_id, field_index, .. } => Node::UpdateField { base: Box::new(ks[0]), struct_id, field_index, value: Box::new(ks[1]) },
            Node::UpdateVec { .. } => Node::UpdateVec { base: Box::new(ks[0]), index: Box::new(ks[1]), value: Box::new(ks[2]) },
            Node::ReadRef(_) => Node::ReadRef(Box::new(ks[0])),
            Node::WriteRef { .. } => Node::WriteRef { reference: Box::new(ks[0]), value: Box::new(ks[1]) },
            Node::MutableBorrow { reconstruct_param, state_type, .. } => Node::MutableBorrow { val_expr: Box::new(ks[0]), reconstruct_param, reconstruct_expr: Box::new(ks[1]), state_type },
            Node::WriteBack { child, parent, edge } => Node::WriteBack { child, parent, edge },
            Node::MutableCompose { .. } => Node::MutableCompose { outer: Box::new(ks[0]), inner: Box::new(ks[1]) },
            Node::Quantifier { kind, binding, binding_type, .. } => Node::Quantifier { kind, binding, binding_type, body: Box::new(ks[0]) },
            Node::ToProp(_) => Node::ToProp(Box::new(ks[0])),
            Node::ToBool(_) => Node::ToBool(Box::new(ks[0])),
            Node::OptionSome(_) => Node::OptionSome(Box::new(ks[0])),
            Node::OptionNone => Node::OptionNone,
            Node::Inhabited => Node::Inhabited,
            Node::Abort { code } => Node::Abort { code: match code { Some(_) => Some(Box::new(ks[0])), None => None } },
            Node::MoveAbortValue { source, .. } => Node::MoveAbortValue { source, code: Box::new(ks[0]) },
            Node::ArithOverflowCheck { op, .. } => Node::ArithOverflowCheck { op, lhs: Box::new(ks[0]), rhs: Box::new(ks[1]) },
        }
    }

    /// The unit value: the empty tuple.
    pub open spec fn unit() -> Node {
        Node::Tuple(Seq::empty())
    }

    /// Each direct subexpression is smaller than the expression.
    pub proof fn lemma_kids_decrease(self)
        ensures
            forall|i: int|
                0 <= i < self.kids().len() ==> decreases_to!(self => #[trigger] self.kids()[i]),
    {
        assert forall|i: int| 0 <= i < self.kids().len() implies decreases_to!(
            self => #[trigger] self.kids()[i]
        ) by {
            match self {
                Node::Match { scrutinee, cases } => {
                    if i > 0 {
                        assert(self.kids()[i] == cases[i - 1].2);
                        assert(decreases_to!(cases => cases[i - 1]));
                    }
                },
                Node::Call { args, .. } => {
                    assert(decreases_to!(args => args[i]));
                },
                Node::Pack { fields, .. } => {
                    assert(decreases_to!(fields => fields[i]));
                },
                Node::Tuple(elems) => {
                    assert(decreases_to!(elems => elems[i]));
                },
                _ => {},
            }
        }
    }

    /// Putting an expression's own subexpressions back changes nothing.
    pub proof fn lemma_with_own_kids(self)
        ensures
            self.with_kids(self.kids()) == self,
    {
        match self {
            Node::Match { scrutinee, cases } => {
                let ks = self.kids();
                assert(Seq::new(cases.len(), |i: int| (cases[i].0, cases[i].1, ks[i + 1]))
                    =~= cases);
            },
            _ => {},
        }
    }
}

/// The last of a list that is not empty.
fn take_last(ks: &mut Vec<IRNode>) -> (r: IRNode)
    requires
        old(ks).len() > 0,
    ensures
        r == old(ks)@.last(),
        final(ks)@ == old(ks)@.drop_last(),
{
    match ks.pop() {
        Some(k) => k,
        None => IRNode::OptionNone,
    }
}

/// References to each of the expressions.
fn refs(v: &Vec<IRNode>) -> (r: Vec<&IRNode>)
    ensures
        r@.len() == IRNode::views(v@).len(),
        forall|i: int| 0 <= i < r@.len() ==> (#[trigger] r@[i])@ == IRNode::views(v@)[i],
{
    let mut out: Vec<&IRNode> = Vec::new();
    let mut i: usize = 0;
    while i < v.len()
        invariant
            i <= v.len(),
            out@.len() == i,
            forall|j: int| 0 <= j < i ==> *(#[trigger] out@[j]) == v@[j],
        decreases v.len() - i,
    {
        out.push(&v[i]);
        i += 1;
    }
    out
}

/// References to the scrutinee and the case bodies of a match.
fn case_refs<'a>(
    scrutinee: &'a IRNode,
    cases: &'a Vec<(usize, Vec<TempId>, IRNode)>,
) -> (r: Vec<&'a IRNode>)
    ensures
        r@.len() == IRNode::case_views(cases@).len() + 1,
        r@[0]@ == scrutinee@,
        forall|i: int|
            1 <= i < r@.len() ==> (#[trigger] r@[i])@ == IRNode::case_views(cases@)[i - 1].2,
{
    let mut out: Vec<&IRNode> = Vec::new();
    out.push(scrutinee);
    let mut i: usize = 0;
    while i < cases.len()
        invariant
            i <= cases.len(),
            out@.len() == i + 1,
            *out@[0] == *scrutinee,
            forall|j: int| 1 <= j < out@.len() ==> *(#[trigger] out@[j]) == cases@[j - 1].2,
        decreases cases.len() - i,
    {
        out.push(&cases[i].2);
        i += 1;
    }
    out
}

/// A copy of a list of names.
pub fn clone_names(v: &Vec<TempId>) -> (r: Vec<TempId>)
    ensures
        r@ == v@,
{
    let mut out: Vec<TempId> = Vec::new();
    let mut i: usize = 0;
    while i < v.len()
        invariant
            i <= v.len(),
            out@ == v@.subrange(0, i as int),
        decreases v.len() - i,
    {
        out.push(v[i].clone());
        assert(out@ =~= v@.subrange(0, i + 1));
        i += 1;
    }
    assert(v@.subrange(0, v@.len() as int) =~= v@);
    out
}

/// The first of the expressions, and the cases with the others as their bodies.
fn replace_cases(
    cases: &Vec<(usize, Vec<TempId>, IRNode)>,
    ks: Vec<IRNode>,
) -> (r: (IRNode, Vec<(usize, Vec<TempId>, IRNode)>))
    requires
        ks@.len() == IRNode::case_views(cases@).len() + 1,
    ensures
        r.0@ == IRNode::views(ks@)[0],
        IRNode::case_views(r.1@) == Seq::new(
            IRNode::case_views(cases@).len(),
            |i: int|
                (
                    IRNode::case_views(cases@)[i].0,
                    IRNode::case_views(cases@)[i].1,
                    IRNode::views(ks@)[i + 1],
                ),
        ),
{
    let mut rest = ks;
    let mut rev: Vec<(usize, Vec<TempId>, IRNode)> = Vec::new();
    let mut n: usize = cases.len();
    while n > 0
        invariant
            n <= cases.len(),
            rest@ == ks@.subrange(0, n + 1),
            ks@.len() == cases@.len() + 1,
            rev@.len() == cases@.len() - n,
            forall|j: int| #![trigger rev@[j]]
                0 <= j < rev@.len() ==> rev@[j].0 == cases@[cases@.len() - 1 - j].0 && rev@[j].1@
                    == cases@[cases@.len() - 1 - j].1@ && rev@[j].2 == ks@[cases@.len() - j],
        decreases n,
    {
        let body = take_last(&mut rest);
        n -= 1;
        rev.push((cases[n].0, clone_names(&cases[n].1), body));
        assert(rest@ =~= ks@.subrange(0, n + 1));
    }
    let first = take_last(&mut rest);
    let mut out: Vec<(usize, Vec<TempId>, IRNode)> = Vec::new();
    let ghost whole = rev@;
    while rev.len() > 0
        invariant
            whole.len() == cases@.len(),
            ks@.len() == cases@.len() + 1,
            rev@.len() <= whole.len(),
            rev@ == whole.subrange(0, rev@.len() as int),
            out@.len() == whole.len() - rev@.len(),
            forall|j: int| #![trigger whole[j]]
                0 <= j < whole.len() ==> whole[j].0 == cases@[cases@.len() - 1 - j].0 && whole[j].1@
                    == cases@[cases@.len() - 1 - j].1@ && whole[j].2 == ks@[cases@.len() - j],
            forall|i: int| #![trigger out@[i]]
                0 <= i < out@.len() ==> out@[i] == whole[whole.len() - 1 - i],
        decreases rev@.len(),
    {
        let ghost before = rev@;
        match rev.pop() {
            Some(case) => {
                assert(case == whole[before.len() - 1]);
                out.push(case);
            },
            None => {},
        }
        assert(rev@ =~= whole.subrange(0, rev@.len() as int));
    }
    assert(IRNode::case_views(out@) =~= Seq::new(
        IRNode::case_views(cases@).len(),
        |i: int|
            (
                IRNode::case_views(cases@)[i].0,
                IRNode::case_views(cases@)[i].1,
                IRNode::views(ks@)[i + 1],
            ),
    ));
    (first, out)
}

impl BitOp {
    /// The operands.
    fn children(&self) -> (r: Vec<&IRNode>)
        ensures
            r@.len() == self@.kids().len(),
            forall|i: int| 0 <= i < r@.len() ==> (#[trigger] r@[i])@ == self@.kids()[i],
    {
        let mut out: Vec<&IRNode> = Vec::new();
        match self {
            BitOp::Extract { operand, .. } => { out.push(&**operand); }
            BitOp::Concat { high, low } => { out.push(&**high); out.push(&**low); }
            BitOp::ZeroExtend { operand, .. } => { out.push(&**operand); }
            BitOp::SignExtend { operand, .. } => { out.push(&**operand); }
        }
        out
    }

    /// The same operation on other operands.
    fn with_children(&self, ks: Vec<IRNode>) -> (r: BitOp)
        requires
            ks@.len() == self@.kids().len(),
        ensures
            r@ == self@.with_kids(IRNode::views(ks@)),
    {
        let mut ks = ks;
        match self {
            BitOp::Extract { high, low, .. } => BitOp::Extract {
                high: *high,
                low: *low,
                operand: Box::new(take_last(&mut ks)),
            },
            BitOp::Concat { .. } => {
                let b: IRNode = take_last(&mut ks);
                let a: IRNode = take_last(&mut ks);
                BitOp::Concat { high: Box::new(a), low: Box::new(b) }
            },
            BitOp::ZeroExtend { bits, .. } => BitOp::ZeroExtend {
                bits: *bits,
                operand: Box::new(take_last(&mut ks)),
            },
            BitOp::SignExtend { bits, .. } => BitOp::SignExtend {
                bits: *bits,
                operand: Box::new(take_last(&mut ks)),
            },
        }
    }

    /// Whether two operations are the same.
    pub fn same(&self, other: &BitOp) -> (r: bool)
        ensures
            r == (self@ == other@),
        decreases self,
    {
        match (self, other) {
            (
                BitOp::Extract { high: a, low: b, operand: x },
                BitOp::Extract { high: c, low: d, operand: y },
            ) => *a == *c && *b == *d && x.same(y),
            (BitOp::Concat { high: a, low: b }, BitOp::Concat { high: c, low: d }) => a.same(c)
                && b.same(d),
            (
                BitOp::ZeroExtend { bits: a, operand: x },
                BitOp::ZeroExtend { bits: b, operand: y },
            ) => *a == *b && x.same(y),
            (
                BitOp::SignExtend { bits: a, operand: x },
                BitOp::SignExtend { bits: b, operand: y },
            ) => *a == *b && x.same(y),
            _ => false,
        }
    }
}

impl IRNode {
    /// The direct subexpressions, in evaluation order.
    pub fn children(&self) -> (r: Vec<&IRNode>)
        ensures
            r@.len() == self@.kids().len(),
            forall|i: int| 0 <= i < r@.len() ==> (#[trigger] r@[i])@ == self@.kids()[i],
    {
        let mut out: Vec<&IRNode> = Vec::new();
        match self {
            IRNode::BinOp { lhs, rhs, .. } => { out.push(&**lhs); out.push(&**rhs); }
            IRNode::UnOp { operand, .. } => { out.push(&**operand); }
            IRNode::BitOp(x) => { return x.children(); }
            IRNode::Call { args, .. } => { return refs(args); }
            IRNode::Pack { fields, .. } => { return refs(fields); }
            IRNode::Field { base, .. } => { out.push(&**base); }
            IRNode::Unpack { value, .. } => { out.push(&**value); }
            IRNode::Tuple(x) => { return refs(x); }
            IRNode::Let { value, body, .. } => { out.push(&**value); out.push(&**body); }
            IRNode::If { cond, then_branch, else_branch } => { out.push(&**cond); out.push(&**then_branch); out.push(&**else_branch); }
            IRNode::Match { scrutinee, cases } => { return case_refs(scrutinee, cases); }
            IRNode::MatchOption { scrutinee, some_branch, none_branch, .. } => { out.push(&**scrutinee); out.push(&**some_branch); out.push(&**none_branch); }
            IRNode::UpdateField { base, value, .. } => { out.push(&**base); out.push(&**value); }
            IRNode::UpdateVec { base, index, value } => { out.push(&**base); out.push(&**index); out.push(&**value); }
            IRNode::ReadRef(x) => { out.push(&**x); }
            IRNode::WriteRef { reference, value } => { out.push(&**reference); out.push(&**value); }
            IRNode::MutableBorrow { val_expr, reconstruct_expr, .. } => { out.push(&**val_expr); out.push(&**reconstruct_expr); }
            IRNode::MutableCompose { outer, inner } => { out.push(&**outer); out.push(&**inner); }
            IRNode::Quantifier { body, .. } => { out.push(&**body); }
            IRNode::ToProp(x) => { out.push(&**x); }
            IRNode::ToBool(x) => { out.push(&**x); }
            IRNode::OptionSome(x) => { out.push(&**x); }
            IRNode::Abort { code } => { if let Some(c) = code { out.push(&**c); } }
            IRNode::MoveAbortValue { code, .. } => { out.push(&**code); }
            IRNode::ArithOverflowCheck { lhs, rhs, .. } => { out.push(&**lhs); out.push(&**rhs); }
            _ => {},
        }
        out
    }

    /// The same expression with other direct subexpressions.
    pub fn with_children(&self, ks: Vec<IRNode>) -> (r: IRNode)
        requires
            ks@.len() == self@.kids().len(),
        ensures
            r@ == self@.with_kids(IRNode::views(ks@)),
    {
        let mut ks = ks;
        match self {
            IRNode::Var(x) => { IRNode::Var(x.clone()) }
            IRNode::Const(x) => { IRNode::Const(x.clone()) }
            IRNode::BinOp { op, .. } => { let k1: IRNode = take_last(&mut ks); let k0: IRNode = take_last(&mut ks); IRNode::BinOp { op: *op, lhs: Box::new(k0), rhs: Box::new(k1) } }
            IRNode::UnOp { op, .. } => { let k0: IRNode = take_last(&mut ks); IRNode::UnOp { op: *op, operand: Box::new(k0) } }
            IRNode::BitOp(x) => { IRNode::BitOp(x.with_children(ks)) }
            IRNode::Call { function, type_args, .. } => { IRNode::Call { function: *function, type_args: clone_types(type_args), args: ks } }
            IRNode::Pack { struct_id, type_args, variant_index, .. } => { IRNode::Pack { struct_id: *struct_id, type_args: clone_types(type_args), fields: ks, variant_index: *variant_index } }
            IRNode::Field { struct_id, field_index, .. } => { let k0: IRNode = take_last(&mut ks); IRNode::Field { struct_id: *struct_id, field_index: *field_index, base: Box::new(k0) } }
            IRNode::Unpack { struct_id, .. } => { let k0: IRNode = take_last(&mut ks); IRNode::Unpack { struct_id: *struct_id, value: Box::new(k0) } }
            IRNode::Tuple(_) => { IRNode::Tuple(ks) }
            IRNode::Let { pattern, .. } => { let k1: IRNode = take_last(&mut ks); let k0: IRNode = take_last(&mut ks); IRNode::Let { pattern: clone_names(pattern), value: Box::new(k0), body: Box::new(k1) } }
            IRNode::If { .. } => { let k2: IRNode = take_last(&mut ks); let k1: IRNode = take_last(&mut ks); let k0: IRNode = take_last(&mut ks); IRNode::If { cond: Box::new(k0), then_branch: Box::new(k1), else_branch: Box::new(k2) } }
            IRNode::Match { cases, .. } => { let (first, new_cases) = replace_cases(cases, ks); IRNode::Match { scrutinee: Box::new(first), cases: new_cases } }
            IRNode::MatchOption { binding, .. } => { let k2: IRNode = take_last(&mut ks); let k1: IRNode = take_last(&mut ks); let k0: IRNode = take_last(&mut ks); IRNode::MatchOption { scrutinee: Box::new(k0), binding: binding.clone(), some_branch: Box::new(k1), none_branch: Box::new(k2) } }
            IRNode::UpdateField { struct_id, field_index, .. } => { let k1: IRNode = take_last(&mut ks); let k0: IRNode = take_last(&mut ks); IRNode::UpdateField { base: Box::new(k0), struct_id: *struct_id, field_index: *field_index, value: Box::new(k1) } }
            IRNode::UpdateVec { .. } => { let k2: IRNode = take_last(&mut ks); let k1: IRNode = take_last(&mut ks); let k0: IRNode = take_last(&mut ks); IRNode::UpdateVec { base: Box::new(k0), index: Box::new(k1), value: Box::new(k2) } }
            IRNode::ReadRef(_) => { let k0: IRNode = take_last(&mut ks); IRNode::ReadRef(Box::new(k0)) }
            IRNode::WriteRef { .. } => { let k1: IRNode = take_last(&mut ks); let k0: IRNode = take_last(&mut ks); IRNode::WriteRef { reference: Box::new(k0), value: Box::new(k1) } }
            IRNode::MutableBorrow { reconstruct_param, state_type, .. } => { let k1: IRNode = take_last(&mut ks); let k0: IRNode = take_last(&mut ks); IRNode::MutableBorrow { val_expr: Box::new(k0), reconstruct_param: reconstruct_param.clone(), reconstruct_expr: Box::new(k1), state_type: state_type.clone() } }
            IRNode::WriteBack { child, parent, edge } => { IRNode::WriteBack { child: child.clone(), parent: parent.clone(), edge: *edge } }
            IRNode::MutableCompose { .. } => { let k1: IRNode = take_last(&mut ks); let k0: IRNode = take_last(&mut ks); IRNode::MutableCompose { outer: Box::new(k0), inner: Box::new(k1) } }
            IRNode::Quantifier { kind, binding, binding_type, .. } => { let k0: IRNode = take_last(&mut ks); IRNode::Quantifier { kind: *kind, binding: binding.clone(), binding_type: binding_type.clone(), body: Box::new(k0) } }
            IRNode::ToProp(_) => { let k0: IRNode = take_last(&mut ks); IRNode::ToProp(Box::new(k0)) }
            IRNode::ToBool(_) => { let k0: IRNode = take_last(&mut ks); IRNode::ToBool(Box::new(k0)) }
            IRNode::OptionSome(_) => { let k0: IRNode = take_last(&mut ks); IRNode::OptionSome(Box::new(k0)) }
            IRNode::OptionNone => { IRNode::OptionNone }
            IRNode::Inhabited => { IRNode::Inhabited }
            IRNode::Abort { code } => { IRNode::Abort { code: match code { Some(_) => Some(Box::new(take_last(&mut ks))), None => None } } }
            IRNode::MoveAbortValue { source, .. } => { let k0: IRNode = take_last(&mut ks); IRNode::MoveAbortValue { source: *source, code: Box::new(k0) } }
            IRNode::ArithOverflowCheck { op, .. } => { let k1: IRNode = take_last(&mut ks); let k0: IRNode = take_last(&mut ks); IRNode::ArithOverflowCheck { op: *op, lhs: Box::new(k0), rhs: Box::new(k1) } }
        }
    }

    /// Whether two expressions are the same.
    #[verifier::rlimit(60)]
    pub fn same(&self, other: &IRNode) -> (r: bool)
        ensures
            r == (self@ == other@),
        decreases self,
    {
        match (self, other) {
            (IRNode::Var(a), IRNode::Var(b)) => *a == *b,
            (IRNode::Const(a), IRNode::Const(b)) => a.same(b),
            (IRNode::BinOp { op: a0, lhs: a1, rhs: a2 }, IRNode::BinOp { op: b0, lhs: b1, rhs: b2 }) => *a0 == *b0 && a1.same(b1) && a2.same(b2),
            (IRNode::UnOp { op: a0, operand: a1 }, IRNode::UnOp { op: b0, operand: b1 }) => *a0 == *b0 && a1.same(b1),
            (IRNode::BitOp(a), IRNode::BitOp(b)) => a.same(b),
            (IRNode::Call { function: a0, type_args: a1, args: a2 }, IRNode::Call { function: b0, type_args: b1, args: b2 }) => *a0 == *b0 && same_types(a1, b1) && same_nodes(a2, b2),
            (IRNode::Pack { struct_id: a0, type_args: a1, fields: a2, variant_index: a3 }, IRNode::Pack { struct_id: b0, type_args: b1, fields: b2, variant_index: b3 }) => *a0 == *b0 && same_types(a1, b1) && same_nodes(a2, b2) && same_index(a3, b3),
            (IRNode::Field { struct_id: a0, field_index: a1, base: a2 }, IRNode::Field { struct_id: b0, field_index: b1, base: b2 }) => *a0 == *b0 && *a1 == *b1 && a2.same(b2),
            (IRNode::Unpack { struct_id: a0, value: a1 }, IRNode::Unpack { struct_id: b0, value: b1 }) => *a0 == *b0 && a1.same(b1),
            (IRNode::Tuple(a), IRNode::Tuple(b)) => same_nodes(a, b),
            (IRNode::Let { pattern: a0, value: a1, body: a2 }, IRNode::Let { pattern: b0, value: b1, body: b2 }) => same_names(a0, b0) && a1.same(b1) && a2.same(b2),
            (IRNode::If { cond: a0, then_branch: a1, else_branch: a2 }, IRNode::If { cond: b0, then_branch: b1, else_branch: b2 }) => a0.same(b0) && a1.same(b1) && a2.same(b2),
            (IRNode::Match { scrutinee: a0, cases: a1 }, IRNode::Match { scrutinee: b0, cases: b1 }) => a0.same(b0) && same_cases(a1, b1),
            (IRNode::MatchOption { scrutinee: a0, binding: a1, some_branch: a2, none_branch: a3 }, IRNode::MatchOption { scrutinee: b0, binding: b1, some_branch: b2, none_branch: b3 }) => a0.same(b0) && *a1 == *b1 && a2.same(b2) && a3.same(b3),
            (IRNode::UpdateField { base: a0, struct_id: a1, field_index: a2, value: a3 }, IRNode::UpdateField { base: b0, struct_id: b1, field_index: b2, value: b3 }) => a0.same(b0) && *a1 == *b1 && *a2 == *b2 && a3.same(b3),
            (IRNode::UpdateVec { base: a0, index: a1, value: a2 }, IRNode::UpdateVec { base: b0, index: b1, value: b2 }) => a0.same(b0) && a1.same(b1) && a2.same(b2),
            (IRNode::ReadRef(a), IRNode::ReadRef(b)) => a.same(b),
            (IRNode::WriteRef { reference: a0, value: a1 }, IRNode::WriteRef { reference: b0, value: b1 }) => a0.same(b0) && a1.same(b1),
            (IRNode::MutableBorrow { val_expr: a0, reconstruct_param: a1, reconstruct_expr: a2, state_type: a3 }, IRNode::MutableBorrow { val_expr: b0, reconstruct_param: b1, reconstruct_expr: b2, state_type: b3 }) => a0.same(b0) && *a1 == *b1 && a2.same(b2) && a3.same(b3),
            (IRNode::WriteBack { child: a0, parent: a1, edge: a2 }, IRNode::WriteBack { child: b0, parent: b1, edge: b2 }) => *a0 == *b0 && *a1 == *b1 && *a2 == *b2,
            (IRNode::MutableCompose { outer: a0, inner: a1 }, IRNode::MutableCompose { outer: b0, inner: b1 }) => a0.same(b0) && a1.same(b1),
            (IRNode::Quantifier { kind: a0, binding: a1, binding_type: a2, body: a3 }, IRNode::Quantifier { kind: b0, binding: b1, binding_type: b2, body: b3 }) => *a0 == *b0 && *a1 == *b1 && a2.same(b2) && a3.same(b3),
            (IRNode::ToProp(a), IRNode::ToProp(b)) => a.same(b),
            (IRNode::ToBool(a), IRNode::ToBool(b)) => a.same(b),
            (IRNode::OptionSome(a), IRNode::OptionSome(b)) => a.same(b),
            (IRNode::OptionNone, IRNode::OptionNone) => true,
            (IRNode::Inhabited, IRNode::Inhabited) => true,
            (IRNode::Abort { code: a0 }, IRNode::Abort { code: b0 }) => match (a0, b0) { (Some(c), Some(d)) => c.same(d), (None, None) => true, _ => false },
            (IRNode::MoveAbortValue { source: a0, code: a1 }, IRNode::MoveAbortValue { source: b0, code: b1 }) => *a0 == *b0 && a1.same(b1),
            (IRNode::ArithOverflowCheck { op: a0, lhs: a1, rhs: a2 }, IRNode::ArithOverflowCheck { op: b0, lhs: b1, rhs: b2 }) => *a0 == *b0 && a1.same(b1) && a2.same(b2),
            _ => false,
        }
    }

    /// The unit value.
    pub fn unit() -> (r: IRNode)
        ensures
            r@ == Node::unit(),
    {
        let r = IRNode::Tuple(Vec::new());
        assert(IRNode::views(r->Tuple_0@) =~= Seq::<Node>::empty());
        r
    }
}

/// Whether two optional indices are the same.
fn same_index(a: &Option<usize>, b: &Option<usize>) -> (r: bool)
    ensures
        r == (*a == *b),
{
    match (a, b) {
        (Some(x), Some(y)) => *x == *y,
        (None, None) => true,
        _ => false,
    }
}

/// Whether two lists of names are the same.
pub fn same_names(a: &Vec<TempId>, b: &Vec<TempId>) -> (r: bool)
    ensures
        r == (names(a@) == names(b@)),
{
    if a.len() != b.len() {
        assert(names(a@).len() != names(b@).len());
        return false;
    }
    let mut i: usize = 0;
    while i < a.len()
        invariant
            i <= a.len(),
            a.len() == b.len(),
            forall|j: int| 0 <= j < i ==> (#[trigger] a@[j])@ == b@[j]@,
        decreases a.len() - i,
    {
        if a[i] != b[i] {
            assert(names(a@)[i as int] != names(b@)[i as int]);
            return false;
        }
        i += 1;
    }
    assert(names(a@) =~= names(b@));
    true
}

/// Whether two lists of expressions are the same.
pub fn same_nodes(a: &Vec<IRNode>, b: &Vec<IRNode>) -> (r: bool)
    ensures
        r == (IRNode::views(a@) == IRNode::views(b@)),
    decreases a,
{
    if a.len() != b.len() {
        assert(IRNode::views(a@).len() != IRNode::views(b@).len());
        return false;
    }
    let mut i: usize = 0;
    while i < a.len()
        invariant
            i <= a.len(),
            a.len() == b.len(),
            forall|j: int| 0 <= j < i ==> (#[trigger] a@[j])@ == b@[j]@,
        decreases a.len() - i,
    {
        if !a[i].same(&b[i]) {
            assert(IRNode::views(a@)[i as int] != IRNode::views(b@)[i as int]);
            return false;
        }
        i += 1;
    }
    assert(IRNode::views(a@) =~= IRNode::views(b@));
    true
}

/// Whether two lists of match cases are the same.
fn same_cases(
    a: &Vec<(usize, Vec<TempId>, IRNode)>,
    b: &Vec<(usize, Vec<TempId>, IRNode)>,
) -> (r: bool)
    ensures
        r == (IRNode::case_views(a@) == IRNode::case_views(b@)),
    decreases a,
{
    if a.len() != b.len() {
        assert(IRNode::case_views(a@).len() != IRNode::case_views(b@).len());
        return false;
    }
    let mut i: usize = 0;
    while i < a.len()
        invariant
            i <= a.len(),
            a.len() == b.len(),
            forall|j: int| #![trigger a@[j]] 0 <= j < i ==> a@[j].0 == b@[j].0 && names(a@[j].1@)
                == names(b@[j].1@) && a@[j].2@ == b@[j].2@,
        decreases a.len() - i,
    {
        if a[i].0 != b[i].0 || !same_names(&a[i].1, &b[i].1) || !a[i].2.same(&b[i].2) {
            assert(IRNode::case_views(a@)[i as int] != IRNode::case_views(b@)[i as int]);
            return false;
        }
        i += 1;
    }
    assert(IRNode::case_views(a@) =~= IRNode::case_views(b@));
    true
}

impl Clone for IRNode {
    fn clone(&self) -> (r: Self)
        ensures
            r@ == self@,
        decreases self@,
    {
        let ks = self.children();
        let mut copies: Vec<IRNode> = Vec::new();
        let mut i: usize = 0;
        proof {
            self@.lemma_kids_decrease();
        }
        while i < ks.len()
            invariant
                i <= ks.len(),
                copies@.len() == i,
                ks@.len() == self@.kids().len(),
                forall|j: int| 0 <= j < ks@.len() ==> (#[trigger] ks@[j])@ == self@.kids()[j],
                forall|j: int| 0 <= j < i ==> (#[trigger] copies@[j])@ == self@.kids()[j],
                forall|j: int| 0 <= j < self@.kids().len() ==> decreases_to!(
                    self@ => #[trigger] self@.kids()[j]
                ),
            decreases ks.len() - i,
        {
            assert(ks@[i as int]@ == self@.kids()[i as int]);
            copies.push(ks[i].clone());
            i += 1;
        }
        assert(IRNode::views(copies@) =~= self@.kids());
        proof {
            self@.lemma_with_own_kids();
        }
        self.with_children(copies)
    }
}

} // verus!
