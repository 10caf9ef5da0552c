//! Evaluation of operations on literals.

use crate::ir::{BinOp, BitOp, Bits, Const, IRNode, Lit, Node, UnOp};
use crate::traverse::{map_nodes, Rewrite};
use crate::word::{
    and, low_mask, not, or, power_of_two, quotient, remainder, shift_left, shift_right,
    wrapping_add, wrapping_mul, wrapping_sub, xor, Word,
};
use vstd::arithmetic::power2::*;
use vstd::prelude::*;

verus! {

/// The low `bits` bits of a 256-bit number.
pub open spec fn truncated(value: nat, bits: usize) -> nat {
    if bits >= 256 {
        value
    } else {
        value % pow2(bits as nat)
    }
}

/// The wider of two widths.
pub open spec fn wider(a: usize, b: usize) -> usize {
    if a < b {
        b
    } else {
        a
    }
}

/// A shift distance, capped at 255.
pub open spec fn capped(shift: nat) -> nat {
    if 255 < shift {
        255
    } else {
        shift
    }
}

/// The comparison of two numbers, where the operator is one.
pub open spec fn compared(op: BinOp, a: nat, b: nat) -> Option<bool> {
    match op {
        BinOp::Gt => Some(a > b),
        BinOp::Ge => Some(a >= b),
        BinOp::Lt => Some(a < b),
        BinOp::Le => Some(a <= b),
        BinOp::Eq => Some(a == b),
        BinOp::Neq => Some(a != b),
        _ => None,
    }
}

/// The number that an arithmetic or bitwise operator makes of two numbers whose
/// wider width is `bits` (for a shift: the width of the first); there is none
/// for a division by zero and for the other operators.
pub open spec fn computed(op: BinOp, a: nat, b: nat, bits: usize) -> Option<nat> {
    match op {
        BinOp::Add => Some(truncated((a + b) % crate::word::modulus(), bits)),
        BinOp::Sub => Some(truncated(((a - b) % crate::word::modulus() as int) as nat, bits)),
        BinOp::Mul => Some(truncated((a * b) % crate::word::modulus(), bits)),
        BinOp::Div => if b == 0 {
            None
        } else {
            Some(a / b)
        },
        BinOp::Mod => if b == 0 {
            None
        } else {
            Some(a % b)
        },
        BinOp::BitAnd => Some(crate::word::bit_and(a, b)),
        BinOp::BitOr => Some(crate::word::bit_or(a, b)),
        BinOp::BitXor => Some(crate::word::bit_xor(a, b)),
        BinOp::Shl => Some(truncated((a * pow2(capped(b))) % crate::word::modulus(), bits)),
        BinOp::Shr => Some(a / pow2(capped(b))),
        _ => None,
    }
}

/// The literal that a binary operation on two literals evaluates to, if any.
pub open spec fn folded_binop(op: BinOp, lhs: Lit, rhs: Lit) -> Option<Lit> {
    match (lhs, rhs) {
        (Lit::Bool(a), Lit::Bool(b)) => match op {
            BinOp::And => Some(Lit::Bool(a && b)),
            BinOp::Or => Some(Lit::Bool(a || b)),
            BinOp::Eq => Some(Lit::Bool(a == b)),
            BinOp::Neq => Some(Lit::Bool(a != b)),
            _ => None,
        },
        (Lit::UInt { bits: b1, value: v1 }, Lit::UInt { bits: b2, value: v2 }) => {
            let bits = if op == BinOp::Shl || op == BinOp::Shr {
                b1
            } else {
                wider(b1, b2)
            };
            match compared(op, v1, v2) {
                Some(b) => Some(Lit::Bool(b)),
                None => match computed(op, v1, v2, bits) {
                    Some(value) => Some(Lit::UInt { bits, value }),
                    None => None,
                },
            }
        },
        _ => None,
    }
}

/// The literal that a unary operation on a literal evaluates to, if any.
pub open spec fn folded_unop(op: UnOp, operand: Lit) -> Option<Lit> {
    match (op, operand) {
        (UnOp::Not, Lit::Bool(b)) => Some(Lit::Bool(!b)),
        (UnOp::BitNot, Lit::UInt { bits, value }) => Some(
            Lit::UInt { bits, value: truncated(crate::word::bit_not(value), bits) },
        ),
        (UnOp::Cast(target), Lit::UInt { value, .. }) => Some(
            Lit::UInt { bits: target as usize, value: truncated(value, target as usize) },
        ),
        (UnOp::Cast(target), Lit::Bool(b)) => Some(
            Lit::UInt {
                bits: target as usize,
                value: if b {
                    1
                } else {
                    0
                },
            },
        ),
        _ => None,
    }
}

/// Whether the expression is a numeric literal whose sign bit is set.
pub open spec fn is_negative(n: Node) -> bool {
    n matches Node::Const(Lit::UInt { bits, value }) && crate::word::bit_and(
        value,
        pow2((bits - 1) as nat),
    ) != 0
}

/// Whether the widths of a bit operation on literals stay within a 256-bit number.
pub open spec fn bitop_defined(op: Bits) -> bool {
    match op {
        Bits::Extract { high, low, operand } => *operand matches Node::Const(Lit::UInt { .. })
            ==> low <= high && high - low + 1 < 256 && low < 256,
        Bits::Concat { high, low } => match (*high, *low) {
            (
                Node::Const(Lit::UInt { bits: hb, .. }),
                Node::Const(Lit::UInt { bits: lb, .. }),
            ) => lb < 256 && hb + lb <= usize::MAX,
            _ => true,
        },
        Bits::ZeroExtend { bits, operand } => *operand matches Node::Const(
            Lit::UInt { bits: orig, .. },
        ) ==> orig + bits <= usize::MAX,
        Bits::SignExtend { bits, operand } => *operand matches Node::Const(
            Lit::UInt { bits: orig, .. },
        ) ==> 1 <= orig <= 256 && orig + bits <= usize::MAX && (is_negative(*operand) ==> orig < 256
            && bits < 256),
    }
}

/// The literal that a bit operation on literals evaluates to, if any.
pub open spec fn folded_bitop(op: Bits) -> Option<Lit> {
    match op {
        Bits::Extract { high, low, operand } => match *operand {
            Node::Const(Lit::UInt { value, .. }) => Some(
                Lit::UInt {
                    bits: (high - low + 1) as usize,
                    value: (value / pow2(low as nat)) % pow2((high - low + 1) as nat),
                },
            ),
            _ => None,
        },
        Bits::Concat { high, low } => match (*high, *low) {
            (
                Node::Const(Lit::UInt { bits: hb, value: hv }),
                Node::Const(Lit::UInt { bits: lb, value: lv }),
            ) => Some(
                Lit::UInt {
                    bits: (hb + lb) as usize,
                    value: crate::word::bit_or(
                        (hv * pow2(lb as nat)) % crate::word::modulus(),
                        lv,
                    ),
                },
            ),
            _ => None,
        },
        Bits::ZeroExtend { bits, operand } => match *operand {
            Node::Const(Lit::UInt { bits: orig, value }) => Some(
                Lit::UInt { bits: (orig + bits) as usize, value },
            ),
            _ => None,
        },
        Bits::SignExtend { bits, operand } => match *operand {
            Node::Const(Lit::UInt { bits: orig, value }) => Some(
                Lit::UInt {
                    bits: (orig + bits) as usize,
                    value: if is_negative(*operand) {
                        crate::word::bit_or(
                            value,
                            (((pow2(bits as nat) - 1) as nat) * pow2(orig as nat))
                                % crate::word::modulus(),
                        )
                    } else {
                        value
                    },
                },
            ),
            _ => None,
        },
    }
}

/// One folding step: an operation on literals becomes a literal, and a branch on
/// a literal becomes the branch taken.
pub open spec fn folded(n: Node) -> Node {
    match n {
        Node::BinOp { op, lhs, rhs } => match (*lhs, *rhs) {
            (Node::Const(a), Node::Const(b)) => match folded_binop(op, a, b) {
                Some(c) => Node::Const(c),
                None => n,
            },
            _ => n,
        },
        Node::UnOp { op, operand } => match *operand {
            Node::Const(a) => match folded_unop(op, a) {
                Some(c) => Node::Const(c),
                None => n,
            },
            _ => n,
        },
        Node::BitOp(op) => match folded_bitop(op) {
            Some(c) => Node::Const(c),
            None => n,
        },
        Node::If { cond, then_branch, else_branch } => match *cond {
            Node::Const(Lit::Bool(b)) => if b {
                *then_branch
            } else {
                *else_branch
            },
            _ => n,
        },
        _ => n,
    }
}

/// Whether a folding step is defined on the expression.
pub open spec fn fold_defined(n: Node) -> bool {
    n matches Node::BitOp(op) ==> bitop_defined(op)
}

/// The folding step.
struct Folder;

impl Rewrite for Folder {
    open spec fn accepts(&self, n: Node) -> bool {
        fold_defined(n)
    }

    open spec fn step(&self, n: Node) -> Node {
        folded(n)
    }

    fn apply(&self, n: IRNode) -> (r: IRNode) {
        fold_node(n)
    }
}

/// Evaluates the operations on literals in a tree, the innermost first.
pub fn fold_constants(node: IRNode) -> (r: IRNode)
    requires
        node@.map_accepts(|n: Node| folded(n), |n: Node| fold_defined(n)),
    ensures
        r@ == node@.map(|n: Node| folded(n)),
{
    let t = Folder;
    proof {
        assert((|n: Node| t.step(n)) =~= (|n: Node| folded(n)));
        assert((|n: Node| t.accepts(n)) =~= (|n: Node| fold_defined(n)));
    }
    map_nodes(&node, &t)
}

/// One folding step.
pub fn fold_node(node: IRNode) -> (r: IRNode)
    requires
        fold_defined(node@),
    ensures
        r@ == folded(node@),
{
    proof {
        reveal_with_fuel(IRNode::view, 2);
    }
    match &node {
        IRNode::BinOp { op, lhs, rhs } => {
            if let (IRNode::Const(c1), IRNode::Const(c2)) = (&**lhs, &**rhs) {
                if let Some(result) = fold_binop(*op, c1, c2) {
                    return IRNode::Const(result);
                }
            }
        },
        IRNode::UnOp { op, operand } => {
            if let IRNode::Const(c) = &**operand {
                if let Some(result) = fold_unop(*op, c) {
                    return IRNode::Const(result);
                }
            }
        },
        IRNode::BitOp(bit_op) => {
            if let Some(result) = fold_bitop(bit_op) {
                return IRNode::Const(result);
            }
        },
        _ => {},
    }
    if let IRNode::If { cond, then_branch, else_branch } = node {
        if let IRNode::Const(Const::Bool(b)) = *cond {
            return if b {
                *then_branch
            } else {
                *else_branch
            };
        }
        return IRNode::If { cond, then_branch, else_branch };
    }
    node
}

/// The low `bits` bits of a number.
pub fn mask_to_bits(value: Word, bits: usize) -> (r: Word)
    ensures
        r@ == truncated(value@, bits),
{
    if bits >= 256 {
        value
    } else {
        proof {
            crate::word::lemma_mask_is_mod(value, bits as nat);
        }
        and(value, low_mask(bits as u32))
    }
}

/// The shift distance that a number stands for, capped at 255.
fn shift_distance(shift: Word) -> (r: u32)
    ensures
        r == capped(shift@),
        r < 256,
{
    let least = shift.least(Word::small(255));
    assert(least.hi == 0) by {
        assert(least@ <= 255);
    }
    least.lo as u32
}

/// The literal that a binary operation on two literals evaluates to, if any.
pub fn fold_binop(op: BinOp, lhs: &Const, rhs: &Const) -> (r: Option<Const>)
    ensures
        match r {
            Some(c) => folded_binop(op, lhs@, rhs@) == Some(c@),
            None => folded_binop(op, lhs@, rhs@) is None,
        },
{
    match (lhs, rhs) {
        (Const::Bool(a), Const::Bool(b)) => match op {
            BinOp::And => Some(Const::Bool(*a && *b)),
            BinOp::Or => Some(Const::Bool(*a || *b)),
            BinOp::Eq => Some(Const::Bool(*a == *b)),
            BinOp::Neq => Some(Const::Bool(*a != *b)),
            _ => None,
        },
        (Const::UInt { bits: b1, value: v1 }, Const::UInt { bits: b2, value: v2 }) => {
            let bits: usize = if *b1 < *b2 {
                *b2
            } else {
                *b1
            };
            match op {
                BinOp::Gt => Some(Const::Bool(v2.less(v1))),
                BinOp::Ge => Some(Const::Bool(!v1.less(v2))),
                BinOp::Lt => Some(Const::Bool(v1.less(v2))),
                BinOp::Le => Some(Const::Bool(!v2.less(v1))),
                BinOp::Eq => Some(Const::Bool(v1.same(v2))),
                BinOp::Neq => Some(Const::Bool(!v1.same(v2))),
                BinOp::Add => Some(
                    Const::UInt { bits, value: mask_to_bits(wrapping_add(*v1, *v2), bits) },
                ),
                BinOp::Sub => Some(
                    Const::UInt { bits, value: mask_to_bits(wrapping_sub(*v1, *v2), bits) },
                ),
                BinOp::Mul => Some(
                    Const::UInt { bits, value: mask_to_bits(wrapping_mul(*v1, *v2), bits) },
                ),
                BinOp::Div => if v2.same(&Word::small(0)) {
                    None
                } else {
                    Some(Const::UInt { bits, value: quotient(*v1, *v2) })
                },
                BinOp::Mod => if v2.same(&Word::small(0)) {
                    None
                } else {
                    Some(Const::UInt { bits, value: remainder(*v1, *v2) })
                },
                BinOp::BitAnd => Some(Const::UInt { bits, value: and(*v1, *v2) }),
                BinOp::BitOr => Some(Const::UInt { bits, value: or(*v1, *v2) }),
                BinOp::BitXor => Some(Const::UInt { bits, value: xor(*v1, *v2) }),
                BinOp::Shl => Some(
                    Const::UInt {
                        bits: *b1,
                        value: mask_to_bits(shift_left(*v1, shift_distance(*v2)), *b1),
                    },
                ),
                BinOp::Shr => Some(
                    Const::UInt { bits: *b1, value: shift_right(*v1, shift_distance(*v2)) },
                ),
                _ => None,
            }
        },
        _ => None,
    }
}

/// The literal that a unary operation on a literal evaluates to, if any.
pub fn fold_unop(op: UnOp, operand: &Const) -> (r: Option<Const>)
    ensures
        match r {
            Some(c) => folded_unop(op, operand@) == Some(c@),
            None => folded_unop(op, operand@) is None,
        },
{
    match (op, operand) {
        (UnOp::Not, Const::Bool(b)) => Some(Const::Bool(!*b)),
        (UnOp::BitNot, Const::UInt { bits, value }) => Some(
            Const::UInt { bits: *bits, value: mask_to_bits(not(*value), *bits) },
        ),
        (UnOp::Cast(target), Const::UInt { value, .. }) => Some(
            Const::UInt {
                bits: target as usize,
                value: mask_to_bits(*value, target as usize),
            },
        ),
        (UnOp::Cast(target), Const::Bool(b)) => Some(
            Const::UInt {
                bits: target as usize,
                value: if *b {
                    Word::small(1)
                } else {
                    Word::small(0)
                },
            },
        ),
        _ => None,
    }
}

/// The literal that a bit operation on literals evaluates to, if any.
pub fn fold_bitop(bit_op: &BitOp) -> (r: Option<Const>)
    requires
        bitop_defined(bit_op@),
    ensures
        match r {
            Some(c) => folded_bitop(bit_op@) == Some(c@),
            None => folded_bitop(bit_op@) is None,
        },
{
    match bit_op {
        BitOp::Extract { high, low, operand } => {
            if let IRNode::Const(Const::UInt { value, .. }) = &**operand {
                let width: u32 = *high - *low + 1;
                let shifted = shift_right(*value, *low);
                proof {
                    crate::word::lemma_mask_is_mod(shifted, width as nat);
                }
                Some(Const::UInt { bits: width as usize, value: and(shifted, low_mask(width)) })
            } else {
                None
            }
        },
        BitOp::Concat { high, low } => {
            if let (
                IRNode::Const(Const::UInt { bits: high_bits, value: high_val }),
                IRNode::Const(Const::UInt { bits: low_bits, value: low_val }),
            ) = (&**high, &**low) {
                let result = or(shift_left(*high_val, *low_bits as u32), *low_val);
                Some(Const::UInt { bits: *high_bits + *low_bits, value: result })
            } else {
                None
            }
        },
        BitOp::ZeroExtend { bits, operand } => {
            if let IRNode::Const(Const::UInt { bits: orig_bits, value }) = &**operand {
                Some(Const::UInt { bits: *orig_bits + *bits as usize, value: *value })
            } else {
                None
            }
        },
        BitOp::SignExtend { bits, operand } => {
            if let IRNode::Const(Const::UInt { bits: orig_bits, value }) = &**operand {
                let new_bits: usize = *orig_bits + *bits as usize;
                let sign_bit = power_of_two((*orig_bits - 1) as u32);
                if !and(*value, sign_bit).same(&Word::small(0)) {
                    let extension_mask = shift_left(low_mask(*bits), *orig_bits as u32);
                    Some(Const::UInt { bits: new_bits, value: or(*value, extension_mask) })
                } else {
                    Some(Const::UInt { bits: new_bits, value: *value })
                }
            } else {
                None
            }
        },
    }
}

/// A number that the folding of a sum, a difference, a product, a left shift, a
/// complement or a cast yields fits the width that it is given.
pub proof fn law_truncated_results_fit(value: nat, bits: usize)
    requires
        bits < 256,
    ensures
        truncated(value, bits) < pow2(bits as nat),
{
    lemma_pow2_pos(bits as nat);
    vstd::arithmetic::div_mod::lemma_mod_bound(value as int, pow2(bits as nat) as int);
}

/// A division by zero and a remainder by zero are left in the tree.
pub proof fn law_zero_divisor_is_kept(op: BinOp, bits1: usize, value: nat, bits2: usize)
    requires
        op == BinOp::Div || op == BinOp::Mod,
    ensures
        ({
            let n = Node::BinOp {
                op,
                lhs: Box::new(Node::Const(Lit::UInt { bits: bits1, value })),
                rhs: Box::new(Node::Const(Lit::UInt { bits: bits2, value: 0 })),
            };
            folded(n) == n
        }),
{
}

/// Whether a folding step changes the expression.
pub open spec fn is_foldable(n: Node) -> bool {
    folded(n) != n
}

/// Folding leaves nothing to fold, so a second time nothing changes.
pub proof fn law_folding_is_final(n: Node)
    ensures
        !n.map(|m: Node| folded(m)).any(|m: Node| is_foldable(m)),
        n.map(|m: Node| folded(m)).map(|m: Node| folded(m)) == n.map(|m: Node| folded(m)),
{
    let f = |m: Node| folded(m);
    let p = |m: Node| is_foldable(m);
    assert forall|m: Node| !m.any_kid(p) implies !(#[trigger] f(m)).any(p) by {
        let r = f(m);
        if r != m {
            if let Node::If { cond, then_branch, else_branch } = m {
                assert(m.kids()[1] == *then_branch && m.kids()[2] == *else_branch);
            } else {
                assert(r is Const);
                assert(r.kids().len() == 0);
            }
        }
    }
    n.lemma_map_clears(f, p);
    n.map(f).lemma_map_unchanged(f, p);
}

/// What is cut out of a concatenation at the place of either part is that part.
pub proof fn law_concatenation_keeps_its_parts(hb: usize, hv: nat, lb: usize, lv: nat)
    requires
        1 <= hb < 256,
        1 <= lb < 256,
        hb + lb <= 256,
        hv < pow2(hb as nat),
        lv < pow2(lb as nat),
    ensures
        ({
            let first = Node::Const(Lit::UInt { bits: hb, value: hv });
            let second = Node::Const(Lit::UInt { bits: lb, value: lv });
            folded_bitop(Bits::Concat { high: Box::new(first), low: Box::new(second) }) matches Some(
                c,
            ) && folded_bitop(
                Bits::Extract {
                    high: (hb + lb - 1) as u32,
                    low: lb as u32,
                    operand: Box::new(Node::Const(c)),
                },
            ) == Some(Lit::UInt { bits: hb, value: hv }) && folded_bitop(
                Bits::Extract { high: (lb - 1) as u32, low: 0, operand: Box::new(Node::Const(c)) },
            ) == Some(Lit::UInt { bits: lb, value: lv })
        }),
{
    let (h, l) = (pow2(hb as nat), pow2(lb as nat));
    lemma_pow2_pos(hb as nat);
    lemma_pow2_pos(lb as nat);
    lemma_pow2_adds(hb as nat, lb as nat);
    if hb + lb < 256 {
        lemma_pow2_strictly_increases((hb + lb) as nat, 256);
    }
    assert(hv * l < h * l) by (nonlinear_arith)
        requires
            hv < h,
            l > 0,
    ;
    vstd::arithmetic::div_mod::lemma_small_mod(hv * l, crate::word::modulus());
    vstd::arithmetic::div_mod::lemma_mod_multiples_basic(hv as int, l as int);
    crate::word::lemma_or_is_sum(hv * l, lv, lb as nat);
    let v = (hv * l + lv) as nat;
    assert(hv * l == l * hv) by (nonlinear_arith);
    vstd::arithmetic::div_mod::lemma_fundamental_div_mod_converse(
        v as int,
        l as int,
        hv as int,
        lv as int,
    );
    vstd::arithmetic::div_mod::lemma_small_mod(hv, h);
    lemma2_to64();
    assert(v / pow2(0) == v);
}

/// A remainder by `2^256` that is cut to a width is the remainder by that width.
proof fn lemma_truncated_is_remainder(x: int, bits: usize)
    requires
        bits <= 256,
    ensures
        truncated((x % crate::word::modulus() as int) as nat, bits) == x % (pow2(
            bits as nat,
        ) as int),
{
    lemma_pow2_pos(256);
    lemma_pow2_pos(bits as nat);
    vstd::arithmetic::div_mod::lemma_mod_bound(x, crate::word::modulus() as int);
    if bits < 256 {
        let rest = (256 - bits) as nat;
        lemma_pow2_pos(rest);
        lemma_pow2_adds(bits as nat, rest);
        vstd::arithmetic::div_mod::lemma_mod_mod(x, pow2(bits as nat) as int, pow2(rest) as int);
    }
}

/// What an arithmetic operation on two numbers is folded to: sums, differences, products
/// and left shifts are exact but for multiples of `2^bits`, where `bits` is the wider width
/// or, for a shift, the width of the number that is shifted; quotients and right shifts are
/// the largest number that, multiplied back, is not above the number that was divided; and
/// a remainder is what is left of it.
pub proof fn law_folded_numbers_are_exact(op: BinOp, b1: usize, v1: nat, b2: usize, v2: nat)
    requires
        b1 <= 256,
        b2 <= 256,
    ensures
        ({
            let width = if op == BinOp::Shl || b2 <= b1 {
                pow2(b1 as nat) as int
            } else {
                pow2(b2 as nat) as int
            };
            let shift = pow2(
                if v2 <= 255 {
                    v2
                } else {
                    255
                },
            );
            match folded_binop(op, Lit::UInt { bits: b1, value: v1 }, Lit::UInt {
                bits: b2,
                value: v2,
            }) {
                Some(Lit::UInt { value, .. }) => match op {
                    BinOp::Add => value == (v1 + v2) as int % width,
                    BinOp::Sub => value == (v1 - v2) % width,
                    BinOp::Mul => value == (v1 * v2) as int % width,
                    BinOp::Shl => value == (v1 * shift) as int % width,
                    BinOp::Shr => value * shift <= v1 < (value + 1) * shift,
                    BinOp::Div => value * v2 <= v1 < (value + 1) * v2,
                    BinOp::Mod => value < v2 && (v1 - value) % (v2 as int) == 0,
                    BinOp::BitAnd => true,
                    BinOp::BitOr => true,
                    BinOp::BitXor => true,
                    _ => false,
                },
                Some(_) => compared(op, v1, v2) is Some,
                None => (op == BinOp::Div || op == BinOp::Mod) && v2 == 0 || op == BinOp::And || op
                    == BinOp::Or,
            }
        }),
{
    let bits = if op == BinOp::Shl || op == BinOp::Shr {
        b1
    } else {
        wider(b1, b2)
    };
    lemma_truncated_is_remainder((v1 + v2) as int, bits);
    lemma_truncated_is_remainder(v1 - v2, bits);
    lemma_truncated_is_remainder((v1 * v2) as int, bits);
    let s = pow2(capped(v2));
    lemma_pow2_pos(capped(v2));
    lemma_truncated_is_remainder((v1 * s) as int, bits);
    lemma_pow2_pos(256);
    let whole = crate::word::modulus();
    assert((v1 + v2) % whole == ((v1 + v2) as int % whole as int) as nat);
    assert((v1 * v2) % whole == ((v1 * v2) as int % whole as int) as nat);
    assert((v1 * s) % whole == ((v1 * s) as int % whole as int) as nat);
    if op == BinOp::Shr {
        lemma_quotient(v1, s);
    }
    if v2 > 0 {
        lemma_quotient(v1, v2);
    }
}

/// A quotient and a remainder.
proof fn lemma_quotient(a: nat, b: nat)
    requires
        b > 0,
    ensures
        (a / b) * b <= a < (a / b + 1) * b,
        a % b < b,
        (a - a % b) % (b as int) == 0,
{
    vstd::arithmetic::div_mod::lemma_fundamental_div_mod(a as int, b as int);
    vstd::arithmetic::div_mod::lemma_mod_bound(a as int, b as int);
    let q = (a / b) as int;
    assert(b * q == q * b) by (nonlinear_arith);
    assert((q + 1) * b == q * b + b) by (nonlinear_arith);
    vstd::arithmetic::div_mod::lemma_mod_multiples_basic(q, b as int);
}

/// Folding a comparison, a logical operation or a branch on literals keeps its value, and a
/// cast keeps a number but for multiples of two to the power of its new width.
pub proof fn law_folding_keeps_values(
    n: Node,
    env: crate::meaning::Env,
    m: crate::meaning::Model,
)
    ensures
        match n {
            Node::If { .. } => crate::meaning::eval(folded(n), env, m) == crate::meaning::eval(
                n,
                env,
                m,
            ),
            Node::UnOp { op: UnOp::Not, .. } => crate::meaning::eval(folded(n), env, m)
                == crate::meaning::eval(n, env, m),
            Node::BinOp { op, .. } => crate::meaning::compared(
                op,
                crate::meaning::Val::Nothing,
                crate::meaning::Val::Nothing,
            ) is Some ==> crate::meaning::eval(folded(n), env, m) == crate::meaning::eval(
                n,
                env,
                m,
            ),
            Node::UnOp { op: UnOp::Cast(target), operand } => match *operand {
                Node::Const(Lit::UInt { value, .. }) => folded(n) matches Node::Const(
                    Lit::UInt { bits, value: out },
                ) && bits == target && (target < 256 ==> out == value % pow2(target as nat)) && (
                target >= 256 ==> out == value),
                _ => true,
            },
            _ => true,
        },
{
    match n {
        Node::BinOp { op, lhs, rhs } => {
            let (x, y) = (
                crate::meaning::eval(*lhs, env, m),
                crate::meaning::eval(*rhs, env, m),
            );
            assert(crate::meaning::compared(
                op,
                crate::meaning::Val::Nothing,
                crate::meaning::Val::Nothing,
            ) is Some <==> crate::meaning::compared(op, x, y) is Some);
            if let (Node::Const(a), Node::Const(b)) = (*lhs, *rhs) {
                if let Some(c) = folded_binop(op, a, b) {
                    let out = Node::Const(c);
                    assert(folded(n) == out);
                    assert(crate::meaning::eval(out, env, m) == match c {
                        Lit::Bool(v) => crate::meaning::Val::Bool(v),
                        Lit::UInt { value, .. } => crate::meaning::Val::Num(value),
                        _ => crate::meaning::eval(out, env, m),
                    });
                }
            }
        },
        Node::UnOp { op: UnOp::Not, operand } => {
            assert(crate::meaning::eval(n, env, m) == crate::meaning::Val::Bool(
                !crate::meaning::truth(crate::meaning::eval(*operand, env, m)),
            ));
        },
        Node::If { cond, then_branch, else_branch } => {
            assert(*cond == Node::Const(Lit::Bool(true)) ==> crate::meaning::truth(
                crate::meaning::eval(*cond, env, m),
            ));
        },
        _ => {},
    }
}

} // verus!
