//! What the parser reads: for the text of a query and a position in it, the tree found
//! there and the position after it, the error reported there, or that nothing of the
//! kind starts there.
use vstd::prelude::*;
use crate::ast_node_pool::Tree;
use crate::parser::{
    ident_run_end, is_ident_char, is_ident_start,
    decimal_value, digit_run_end, ident_len, is_keyword, starts_with, ws_run, BinaryOp, Op, ParseErrorType,
    UnaryOp, ORDER_ADD, ORDER_AND, ORDER_COALESCE, ORDER_END, ORDER_EQUALITY, ORDER_MULTIPLY, ORDER_NEGATIVE,
    ORDER_NOT, ORDER_OR, ORDER_PIPE,
};

verus! {

/// What reading a piece of a query at a position gives.
pub enum Outcome<T> {
    /// Nothing of the kind starts there, and nothing is read.
    Absent,
    /// The piece, and the position just after it.
    Found(T, int),
    /// An error of this kind, reported at this position.
    Failed(ParseErrorType, int),
}

// ----- bytes

/// The position after the whitespace at `p` (never past the end of the text).
pub open spec fn skip_ws(t: Seq<u8>, p: int) -> int {
    if 0 <= p <= t.len() {
        if p + ws_run(t.skip(p)) <= t.len() {
            p + ws_run(t.skip(p))
        } else {
            t.len() as int
        }
    } else {
        p
    }
}

/// Skipping whitespace from `p` passes over spaces, newlines, tabs and carriage
/// returns only, and stops at the first other byte or at the end of the text.
pub proof fn lemma_skip_ws_skips_whitespace(t: Seq<u8>, p: int)
    requires
        0 <= p <= t.len(),
    ensures
        p <= skip_ws(t, p) <= t.len(),
        forall|i: int| p <= i < skip_ws(t, p) ==> #[trigger] t[i] == 32u8 || t[i] == 10u8 || t[i] == 9u8 || t[i] == 13u8,
        skip_ws(t, p) < t.len() ==> !(t[skip_ws(t, p)] == 32u8 || t[skip_ws(t, p)] == 10u8 || t[skip_ws(t, p)] == 9u8
            || t[skip_ws(t, p)] == 13u8),
{
    lemma_ws_run_skips(t.skip(p));
    assert forall|i: int| p <= i < skip_ws(t, p) implies #[trigger] t[i] == 32u8 || t[i] == 10u8 || t[i] == 9u8 || t[i]
        == 13u8 by {
        assert(t.skip(p)[i - p] == t[i]);
    }
    if skip_ws(t, p) < t.len() {
        assert(t.skip(p)[skip_ws(t, p) - p] == t[skip_ws(t, p)]);
    }
}

proof fn lemma_ws_run_skips(r: Seq<u8>)
    ensures
        ws_run(r) <= r.len(),
        forall|i: int| 0 <= i < ws_run(r) ==> #[trigger] r[i] == 32u8 || r[i] == 10u8 || r[i] == 9u8 || r[i] == 13u8,
        ws_run(r) < r.len() ==> !(r[ws_run(r) as int] == 32u8 || r[ws_run(r) as int] == 10u8 || r[ws_run(r) as int]
            == 9u8 || r[ws_run(r) as int] == 13u8),
    decreases r.len(),
{
    if r.len() > 0 && crate::json_lexer::is_ws(r[0]) {
        let rest = r.drop_first();
        lemma_ws_run_skips(rest);
        assert forall|i: int| 0 <= i < ws_run(r) implies #[trigger] r[i] == 32u8 || r[i] == 10u8 || r[i] == 9u8 || r[i]
            == 13u8 by {
            if i > 0 {
                assert(r[i] == rest[i - 1]);
            }
        }
        if ws_run(r) < r.len() {
            assert(r[ws_run(r) as int] == rest[ws_run(rest) as int]);
        }
    }
}

/// A name is a letter or an underscore followed by letters, underscores and digits, as
/// many as there are: every byte of it is one of those, and the byte after it is not.
pub proof fn lemma_name_bytes(r: Seq<u8>)
    ensures
        ident_len(r) <= r.len(),
        ident_len(r) > 0 ==> (65 <= r[0] <= 90 || 97 <= r[0] <= 122 || r[0] == 95u8),
        r.len() > 0 && (65 <= r[0] <= 90 || 97 <= r[0] <= 122 || r[0] == 95u8) ==> ident_len(r) > 0,
        forall|i: int| 0 <= i < ident_len(r) ==> (65 <= #[trigger] r[i] <= 90 || 97 <= r[i] <= 122 || r[i] == 95u8 || 48
            <= r[i] <= 57),
        ident_len(r) > 0 && ident_len(r) < r.len() ==> !(65 <= r[ident_len(r) as int] <= 90 || 97 <= r[ident_len(
            r,
        ) as int] <= 122 || r[ident_len(r) as int] == 95u8 || 48 <= r[ident_len(r) as int] <= 57),
{
    if r.len() > 0 && is_ident_start(r[0]) {
        lemma_ident_run(r, 1);
    }
}

proof fn lemma_ident_run(r: Seq<u8>, k: nat)
    requires
        k <= r.len(),
        forall|i: int| 0 <= i < k ==> is_ident_char(#[trigger] r[i]),
    ensures
        k <= ident_run_end(r, k) <= r.len(),
        forall|i: int| 0 <= i < ident_run_end(r, k) ==> is_ident_char(#[trigger] r[i]),
        ident_run_end(r, k) < r.len() ==> !is_ident_char(r[ident_run_end(r, k) as int]),
    decreases r.len() - k,
{
    if k < r.len() && is_ident_char(r[k as int]) {
        lemma_ident_run(r, k + 1);
    }
}

/// `lit` is in the text at `p`.
pub open spec fn lit_at(t: Seq<u8>, p: int, lit: Seq<u8>) -> bool {
    0 <= p <= t.len() && starts_with(t.skip(p), lit)
}

/// The length of the name at `p`: an identifier, which with `exclude_keywords` is not
/// `and` or `or`; 0 where there is none.
pub open spec fn name_len(t: Seq<u8>, p: int, exclude_keywords: bool) -> nat {
    if exclude_keywords && is_keyword(t.skip(p), ident_len(t.skip(p))) {
        0
    } else {
        ident_len(t.skip(p))
    }
}

/// The name of `n` bytes at `p`.
pub open spec fn name_tree(p: int, n: nat) -> Tree {
    Tree::Identifier(p as usize, (p + n) as usize)
}

/// The parts read so far with `part` after them: the first part alone, or a list node
/// of the earlier parts and the new one.
pub open spec fn join(parts: Option<Tree>, part: Tree) -> Option<Tree> {
    match parts {
        None => Some(part),
        Some(prev) => Some(Tree::ListNode(Box::new(prev), Box::new(part))),
    }
}

/// An optional tree, boxed.
pub open spec fn boxed(parts: Option<Tree>) -> Option<Box<Tree>> {
    match parts {
        None => None,
        Some(x) => Some(Box::new(x)),
    }
}

// ----- operators

/// An entry of an expression being read: an operand, or an operator and how tightly
/// it binds.
pub enum Item {
    Operand(Tree),
    Operator(Op, u8),
}

/// The tree of a unary operator applied to `r`.
pub open spec fn unary_tree(op: UnaryOp, r: Tree) -> Tree {
    match op {
        UnaryOp::Not => Tree::Not(Box::new(r)),
        UnaryOp::Negative => Tree::Negative(Box::new(r)),
    }
}

/// The tree of a binary operator applied to `l` and `r`.
pub open spec fn binary_tree(op: BinaryOp, l: Tree, r: Tree) -> Tree {
    let (a, b) = (Box::new(l), Box::new(r));
    match op {
        BinaryOp::Pipe => Tree::Pipe(a, b),
        BinaryOp::Coalesce => Tree::Coalesce(a, b),
        BinaryOp::Or => Tree::Or(a, b),
        BinaryOp::And => Tree::And(a, b),
        BinaryOp::Equals => Tree::Equals(a, b),
        BinaryOp::NotEquals => Tree::NotEquals(a, b),
        BinaryOp::LessThan => Tree::LessThan(a, b),
        BinaryOp::LessThanOrEqual => Tree::LessThanOrEqual(a, b),
        BinaryOp::GreaterThan => Tree::GreaterThan(a, b),
        BinaryOp::GreaterThanOrEqual => Tree::GreaterThanOrEqual(a, b),
        BinaryOp::Add => Tree::Add(a, b),
        BinaryOp::Subtract => Tree::Subtract(a, b),
        BinaryOp::Multiply => Tree::Multiply(a, b),
        BinaryOp::Divide => Tree::Divide(a, b),
    }
}

/// Combines the operators at the end of `s` that bind at least as tightly as `order`
/// with their operands, the last one first.
pub open spec fn reduce(s: Seq<Item>, order: u8) -> Seq<Item>
    decreases s.len(),
{
    if s.len() < 2 {
        s
    } else {
        match (s[s.len() - 2], s[s.len() - 1]) {
            (Item::Operator(op, o), Item::Operand(r)) => {
                if o < order {
                    s
                } else {
                    match op {
                        Op::Unary(u) => reduce(s.take(s.len() - 2).push(Item::Operand(unary_tree(u, r))), order),
                        Op::Binary(b) => {
                            if s.len() >= 3 && s[s.len() - 3] is Operand {
                                reduce(
                                    s.take(s.len() - 3).push(Item::Operand(binary_tree(b, s[s.len() - 3]->Operand_0, r))),
                                    order,
                                )
                            } else {
                                s
                            }
                        },
                    }
                }
            },
            _ => s,
        }
    }
}

/// Precedence and left associativity: in `a o1 b o2 c`, the operator that binds more
/// tightly is applied first, and of two that bind alike the left one is.
pub proof fn lemma_two_operators(a: Tree, b: Tree, c: Tree, o1: BinaryOp, x: u8, o2: BinaryOp, y: u8)
    requires
        x > ORDER_END,
        y > ORDER_END,
    ensures
        ({
            let read = seq![Item::Operand(a), Item::Operator(Op::Binary(o1), x), Item::Operand(b)];
            let s = reduce(read, y).push(Item::Operator(Op::Binary(o2), y)).push(Item::Operand(c));
            final_tree(reduce(s, ORDER_END)) == if x >= y {
                binary_tree(o2, binary_tree(o1, a, b), c)
            } else {
                binary_tree(o1, a, binary_tree(o2, b, c))
            }
        }),
{
    let read = seq![Item::Operand(a), Item::Operator(Op::Binary(o1), x), Item::Operand(b)];
    let ab = binary_tree(o1, a, b);
    if x >= y {
        assert(read.take(0).push(Item::Operand(ab)) =~= seq![Item::Operand(ab)]);
        assert(reduce(read, y) == seq![Item::Operand(ab)]) by {
            reveal_with_fuel(reduce, 2);
        }
        let s = seq![Item::Operand(ab)].push(Item::Operator(Op::Binary(o2), y)).push(Item::Operand(c));
        let abc = binary_tree(o2, ab, c);
        assert(s.take(0).push(Item::Operand(abc)) =~= seq![Item::Operand(abc)]);
        assert(reduce(s, ORDER_END) == seq![Item::Operand(abc)]) by {
            reveal_with_fuel(reduce, 2);
        }
    } else {
        assert(reduce(read, y) == read);
        let s = read.push(Item::Operator(Op::Binary(o2), y)).push(Item::Operand(c));
        let bc = binary_tree(o2, b, c);
        let s1 = seq![Item::Operand(a), Item::Operator(Op::Binary(o1), x), Item::Operand(bc)];
        assert(s.take(2).push(Item::Operand(bc)) =~= s1);
        let abc = binary_tree(o1, a, bc);
        assert(s1.take(0).push(Item::Operand(abc)) =~= seq![Item::Operand(abc)]);
        assert(reduce(s1, ORDER_END) == seq![Item::Operand(abc)]) by {
            reveal_with_fuel(reduce, 2);
        }
        assert(reduce(s, ORDER_END) == reduce(s1, ORDER_END));
    }
}

/// The tree of a fully combined expression.
pub open spec fn final_tree(s: Seq<Item>) -> Tree {
    if s.len() == 1 && s[0] is Operand {
        s[0]->Operand_0
    } else {
        Tree::Null
    }
}

/// The binary operator at `q`, how tightly it binds, and its length; a pipe counts only
/// with `allow_pipe`.
pub open spec fn binary_op_at(t: Seq<u8>, q: int, allow_pipe: bool) -> Option<(BinaryOp, u8, nat)> {
    if allow_pipe && lit_at(t, q, seq![124u8]) {
        Some((BinaryOp::Pipe, ORDER_PIPE, 1))
    } else if lit_at(t, q, seq![63u8, 63u8]) {
        Some((BinaryOp::Coalesce, ORDER_COALESCE, 2))
    } else if lit_at(t, q, seq![111u8, 114u8]) {
        Some((BinaryOp::Or, ORDER_OR, 2))
    } else if lit_at(t, q, seq![97u8, 110u8, 100u8]) {
        Some((BinaryOp::And, ORDER_AND, 3))
    } else if lit_at(t, q, seq![61u8, 61u8]) {
        Some((BinaryOp::Equals, ORDER_EQUALITY, 2))
    } else if lit_at(t, q, seq![33u8, 61u8]) {
        Some((BinaryOp::NotEquals, ORDER_EQUALITY, 2))
    } else if lit_at(t, q, seq![60u8, 61u8]) {
        Some((BinaryOp::LessThanOrEqual, ORDER_EQUALITY, 2))
    } else if lit_at(t, q, seq![60u8]) {
        Some((BinaryOp::LessThan, ORDER_EQUALITY, 1))
    } else if lit_at(t, q, seq![62u8, 61u8]) {
        Some((BinaryOp::GreaterThanOrEqual, ORDER_EQUALITY, 2))
    } else if lit_at(t, q, seq![62u8]) {
        Some((BinaryOp::GreaterThan, ORDER_EQUALITY, 1))
    } else if lit_at(t, q, seq![43u8]) {
        Some((BinaryOp::Add, ORDER_ADD, 1))
    } else if lit_at(t, q, seq![45u8]) {
        Some((BinaryOp::Subtract, ORDER_ADD, 1))
    } else if lit_at(t, q, seq![42u8]) {
        Some((BinaryOp::Multiply, ORDER_MULTIPLY, 1))
    } else if lit_at(t, q, seq![47u8]) {
        Some((BinaryOp::Divide, ORDER_MULTIPLY, 1))
    } else {
        None
    }
}

/// `lit` stands at `q` exactly when its bytes are those of `t` from `q` on.
proof fn lemma_lit_at_bytes(t: Seq<u8>, q: int, lit: Seq<u8>)
    requires
        0 <= q <= t.len(),
    ensures
        lit_at(t, q, lit) <==> q + lit.len() <= t.len() && forall|i: int| 0 <= i < lit.len() ==> t[q + i] == #[trigger] lit[i],
{
    if q + lit.len() <= t.len() {
        if forall|i: int| 0 <= i < lit.len() ==> t[q + i] == #[trigger] lit[i] {
            assert(t.skip(q).subrange(0, lit.len() as int) =~= lit);
        }
        if lit_at(t, q, lit) {
            assert forall|i: int| 0 <= i < lit.len() implies t[q + i] == #[trigger] lit[i] by {
                assert(t.skip(q).subrange(0, lit.len() as int)[i] == lit[i]);
            }
        }
    }
}

/// Each operator symbol reads as its operator, with the tightness the grammar gives it
/// and the number of bytes it takes, and the operator builds the tree node of its
/// name: `|` a pipe (only where pipes are allowed), `??` a coalesce, `or`, `and`, `==`,
/// `!=`, `<=`, `<`, `>=`, `>`, `+` an addition, `-` a subtraction, `*` a
/// multiplication and `/` a division. A byte that starts no operator reads as none.
pub proof fn lemma_operator_symbols(t: Seq<u8>, q: int, allow_pipe: bool, l: Tree, r: Tree)
    requires
        0 <= q < t.len(),
    ensures
        t[q] == 124u8 && allow_pipe ==> binary_op_at(t, q, allow_pipe) == Some((BinaryOp::Pipe, ORDER_PIPE, 1nat)),
        t[q] == 124u8 && !allow_pipe ==> binary_op_at(t, q, allow_pipe) is None,
        t[q] == 63u8 && q + 1 < t.len() && t[q + 1] == 63u8 ==> binary_op_at(t, q, allow_pipe) == Some(
            (BinaryOp::Coalesce, ORDER_COALESCE, 2nat),
        ),
        t[q] == 111u8 && q + 1 < t.len() && t[q + 1] == 114u8 ==> binary_op_at(t, q, allow_pipe) == Some(
            (BinaryOp::Or, ORDER_OR, 2nat),
        ),
        t[q] == 97u8 && q + 2 < t.len() && t[q + 1] == 110u8 && t[q + 2] == 100u8 ==> binary_op_at(t, q, allow_pipe)
            == Some((BinaryOp::And, ORDER_AND, 3nat)),
        t[q] == 61u8 && q + 1 < t.len() && t[q + 1] == 61u8 ==> binary_op_at(t, q, allow_pipe) == Some(
            (BinaryOp::Equals, ORDER_EQUALITY, 2nat),
        ),
        t[q] == 33u8 && q + 1 < t.len() && t[q + 1] == 61u8 ==> binary_op_at(t, q, allow_pipe) == Some(
            (BinaryOp::NotEquals, ORDER_EQUALITY, 2nat),
        ),
        t[q] == 60u8 && q + 1 < t.len() && t[q + 1] == 61u8 ==> binary_op_at(t, q, allow_pipe) == Some(
            (BinaryOp::LessThanOrEqual, ORDER_EQUALITY, 2nat),
        ),
        t[q] == 60u8 && !(q + 1 < t.len() && t[q + 1] == 61u8) ==> binary_op_at(t, q, allow_pipe) == Some(
            (BinaryOp::LessThan, ORDER_EQUALITY, 1nat),
        ),
        t[q] == 62u8 && q + 1 < t.len() && t[q + 1] == 61u8 ==> binary_op_at(t, q, allow_pipe) == Some(
            (BinaryOp::GreaterThanOrEqual, ORDER_EQUALITY, 2nat),
        ),
        t[q] == 62u8 && !(q + 1 < t.len() && t[q + 1] == 61u8) ==> binary_op_at(t, q, allow_pipe) == Some(
            (BinaryOp::GreaterThan, ORDER_EQUALITY, 1nat),
        ),
        t[q] == 43u8 ==> binary_op_at(t, q, allow_pipe) == Some((BinaryOp::Add, ORDER_ADD, 1nat)),
        t[q] == 45u8 ==> binary_op_at(t, q, allow_pipe) == Some((BinaryOp::Subtract, ORDER_ADD, 1nat)),
        t[q] == 42u8 ==> binary_op_at(t, q, allow_pipe) == Some((BinaryOp::Multiply, ORDER_MULTIPLY, 1nat)),
        t[q] == 47u8 ==> binary_op_at(t, q, allow_pipe) == Some((BinaryOp::Divide, ORDER_MULTIPLY, 1nat)),
        t[q] != 124u8 && t[q] != 63u8 && t[q] != 111u8 && t[q] != 97u8 && t[q] != 61u8 && t[q] != 33u8 && t[q] != 60u8
            && t[q] != 62u8 && t[q] != 43u8 && t[q] != 45u8 && t[q] != 42u8 && t[q] != 47u8 ==> binary_op_at(
            t,
            q,
            allow_pipe,
        ) is None,
        binary_tree(BinaryOp::Pipe, l, r) == Tree::Pipe(Box::new(l), Box::new(r)),
        binary_tree(BinaryOp::Coalesce, l, r) == Tree::Coalesce(Box::new(l), Box::new(r)),
        binary_tree(BinaryOp::Or, l, r) == Tree::Or(Box::new(l), Box::new(r)),
        binary_tree(BinaryOp::And, l, r) == Tree::And(Box::new(l), Box::new(r)),
        binary_tree(BinaryOp::Equals, l, r) == Tree::Equals(Box::new(l), Box::new(r)),
        binary_tree(BinaryOp::NotEquals, l, r) == Tree::NotEquals(Box::new(l), Box::new(r)),
        binary_tree(BinaryOp::LessThan, l, r) == Tree::LessThan(Box::new(l), Box::new(r)),
        binary_tree(BinaryOp::LessThanOrEqual, l, r) == Tree::LessThanOrEqual(Box::new(l), Box::new(r)),
        binary_tree(BinaryOp::GreaterThan, l, r) == Tree::GreaterThan(Box::new(l), Box::new(r)),
        binary_tree(BinaryOp::GreaterThanOrEqual, l, r) == Tree::GreaterThanOrEqual(Box::new(l), Box::new(r)),
        binary_tree(BinaryOp::Add, l, r) == Tree::Add(Box::new(l), Box::new(r)),
        binary_tree(BinaryOp::Subtract, l, r) == Tree::Subtract(Box::new(l), Box::new(r)),
        binary_tree(BinaryOp::Multiply, l, r) == Tree::Multiply(Box::new(l), Box::new(r)),
        binary_tree(BinaryOp::Divide, l, r) == Tree::Divide(Box::new(l), Box::new(r)),
{
    lemma_lit_at_bytes(t, q, seq![124u8]);
    lemma_lit_at_bytes(t, q, seq![63u8, 63u8]);
    lemma_lit_at_bytes(t, q, seq![111u8, 114u8]);
    lemma_lit_at_bytes(t, q, seq![97u8, 110u8, 100u8]);
    lemma_lit_at_bytes(t, q, seq![61u8, 61u8]);
    lemma_lit_at_bytes(t, q, seq![33u8, 61u8]);
    lemma_lit_at_bytes(t, q, seq![60u8, 61u8]);
    lemma_lit_at_bytes(t, q, seq![60u8]);
    lemma_lit_at_bytes(t, q, seq![62u8, 61u8]);
    lemma_lit_at_bytes(t, q, seq![62u8]);
    lemma_lit_at_bytes(t, q, seq![43u8]);
    lemma_lit_at_bytes(t, q, seq![45u8]);
    lemma_lit_at_bytes(t, q, seq![42u8]);
    lemma_lit_at_bytes(t, q, seq![47u8]);
    assert(seq![124u8][0] == 124u8);
    assert(seq![63u8, 63u8][0] == 63u8 && seq![63u8, 63u8][1] == 63u8);
    assert(seq![111u8, 114u8][0] == 111u8 && seq![111u8, 114u8][1] == 114u8);
    assert(seq![97u8, 110u8, 100u8][0] == 97u8 && seq![97u8, 110u8, 100u8][1] == 110u8 && seq![97u8, 110u8, 100u8][2]
        == 100u8);
    assert(seq![61u8, 61u8][0] == 61u8 && seq![61u8, 61u8][1] == 61u8);
    assert(seq![33u8, 61u8][0] == 33u8 && seq![33u8, 61u8][1] == 61u8);
    assert(seq![60u8, 61u8][0] == 60u8 && seq![60u8, 61u8][1] == 61u8);
    assert(seq![60u8][0] == 60u8);
    assert(seq![62u8, 61u8][0] == 62u8 && seq![62u8, 61u8][1] == 61u8);
    assert(seq![62u8][0] == 62u8);
    assert(seq![43u8][0] == 43u8);
    assert(seq![45u8][0] == 45u8);
    assert(seq![42u8][0] == 42u8);
    assert(seq![47u8][0] == 47u8);
}

/// The value of a run of decimal digits: one digit is worth its digit, and digits
/// written after others shift those by one power of ten each.
pub proof fn lemma_decimal_value_digits(a: Seq<u8>, b: Seq<u8>, c: u8)
    ensures
        48 <= c <= 57 ==> decimal_value(seq![c]) == c - 48,
        decimal_value(Seq::<u8>::empty()) == 0,
        decimal_value(a + b) == decimal_value(a) * vstd::arithmetic::power::pow(10, b.len()) + decimal_value(b),
    decreases b.len(),
{
    assert(seq![c].drop_last() =~= Seq::<u8>::empty());
    assert(seq![c].last() == c);
    assert(decimal_value(seq![c]) == 10 * decimal_value(Seq::<u8>::empty()) + (c - 48) as nat);
    reveal_with_fuel(vstd::arithmetic::power::pow, 2);
    if b.len() == 0 {
        assert(a + b =~= a);
    } else {
        let b1 = b.drop_last();
        lemma_decimal_value_digits(a, b1, c);
        assert((a + b).drop_last() =~= a + b1);
        assert((a + b).last() == b.last());
        let p1 = vstd::arithmetic::power::pow(10, b1.len());
        assert(vstd::arithmetic::power::pow(10, b.len()) == 10 * p1);
        let da = decimal_value(a) as int;
        assert(10 * (da * p1) == da * (10 * p1)) by (nonlinear_arith);
    }
}

/// The unary operators at `p`, each followed by whitespace (`not` before `-`), and how
/// many bytes they take.
pub open spec fn unary_prefix(t: Seq<u8>, p: int) -> (Seq<Item>, nat)
    decreases t.len() - p,
{
    if !(0 <= p <= t.len()) {
        (Seq::empty(), 0)
    } else if lit_at(t, p, seq![110u8, 111u8, 116u8]) {
        let q = skip_ws(t, p + 3);
        let (ops, n) = unary_prefix(t, q);
        (seq![Item::Operator(Op::Unary(UnaryOp::Not), ORDER_NOT)] + ops, (q - p + n) as nat)
    } else if lit_at(t, p, seq![45u8]) {
        let q = skip_ws(t, p + 1);
        let (ops, n) = unary_prefix(t, q);
        (seq![Item::Operator(Op::Unary(UnaryOp::Negative), ORDER_NEGATIVE)] + ops, (q - p + n) as nat)
    } else {
        (Seq::empty(), 0)
    }
}

// ----- expressions

/// An expression, pipes included.
#[verifier::opaque]
pub open spec fn read_expr(t: Seq<u8>, p: int) -> Outcome<Tree>
    decreases t.len() - p, 40nat,
{
    if !(0 <= p <= t.len()) {
        Outcome::Absent
    } else {
        read_inner_expr(t, p, true)
    }
}

/// An expression: an operand, then binary operators each followed by an operand.
#[verifier::opaque]
pub open spec fn read_inner_expr(t: Seq<u8>, p: int, allow_pipe: bool) -> Outcome<Tree>
    decreases t.len() - p, 38nat,
{
    if !(0 <= p <= t.len()) {
        Outcome::Absent
    } else {
        match read_operand(t, p) {
            Outcome::Absent => Outcome::Absent,
            Outcome::Failed(k, i) => Outcome::Failed(k, i),
            Outcome::Found(items, e) => {
                if p < e <= t.len() {
                    read_operators(t, e, allow_pipe, items)
                } else {
                    Outcome::Absent
                }
            },
        }
    }
}

/// The rest of an expression after an operand, with the entries read so far in `stack`.
#[verifier::opaque]
pub open spec fn read_operators(t: Seq<u8>, p: int, allow_pipe: bool, stack: Seq<Item>) -> Outcome<Tree>
    decreases t.len() - p, 38nat,
{
    if !(0 <= p <= t.len()) {
        Outcome::Absent
    } else {
        let q = skip_ws(t, p);
        match binary_op_at(t, q, allow_pipe) {
            None => Outcome::Found(final_tree(reduce(stack, ORDER_END)), q),
            Some((op, order, n)) => {
                let q2 = skip_ws(t, q + n);
                let s2 = reduce(stack, order).push(Item::Operator(Op::Binary(op), order));
                if !(p < q2 <= t.len()) {
                    Outcome::Absent
                } else {
                    match read_operand(t, q2) {
                        Outcome::Absent => Outcome::Failed(ParseErrorType::NoExprAfterOperator, q2),
                        Outcome::Failed(k, i) => Outcome::Failed(k, i),
                        Outcome::Found(items, e) => {
                            if q2 < e <= t.len() {
                                read_operators(t, e, allow_pipe, s2 + items)
                            } else {
                                Outcome::Absent
                            }
                        },
                    }
                }
            },
        }
    }
}

/// After an operand `a`, a binary operator followed by an operand `b` that ends the
/// expression reads as the operator's tree over `a` and `b`: `a / b` is a division of
/// `a` by `b` (see `lemma_operator_symbols` for which symbol is which operator).
pub proof fn lemma_one_operator(t: Seq<u8>, p: int, allow_pipe: bool, a: Tree, b: Tree, e: int)
    requires
        0 <= p <= t.len(),
        binary_op_at(t, skip_ws(t, p), allow_pipe) is Some,
        ({
            let q = skip_ws(t, p);
            let n = binary_op_at(t, q, allow_pipe)->0 .2;
            let q2 = skip_ws(t, q + n);
            &&& p < q2 <= t.len()
            &&& read_operand(t, q2) == Outcome::Found(seq![Item::Operand(b)], e)
            &&& q2 < e <= t.len()
        }),
        binary_op_at(t, skip_ws(t, e), allow_pipe) is None,
    ensures
        read_operators(t, p, allow_pipe, seq![Item::Operand(a)]) == Outcome::Found(
            binary_tree(binary_op_at(t, skip_ws(t, p), allow_pipe)->0 .0, a, b),
            skip_ws(t, e),
        ),
{
    let q = skip_ws(t, p);
    let op = binary_op_at(t, q, allow_pipe)->0 .0;
    let o = binary_op_at(t, q, allow_pipe)->0 .1;
    let s2 = reduce(seq![Item::Operand(a)], o).push(Item::Operator(Op::Binary(op), o));
    assert(reduce(seq![Item::Operand(a)], o) == seq![Item::Operand(a)]);
    let st = s2 + seq![Item::Operand(b)];
    assert(st =~= seq![Item::Operand(a), Item::Operator(Op::Binary(op), o), Item::Operand(b)]);
    let ab = binary_tree(op, a, b);
    assert(st.take(0).push(Item::Operand(ab)) =~= seq![Item::Operand(ab)]);
    assert(reduce(st, ORDER_END) == seq![Item::Operand(ab)]) by {
        reveal_with_fuel(reduce, 2);
    }
    let n = binary_op_at(t, q, allow_pipe)->0 .2;
    assert(binary_op_at(t, q, allow_pipe) == Some((op, o, n)));
    let q2 = skip_ws(t, q + n);
    assert(s2 + seq![Item::Operand(b)] == st);
    reveal_with_fuel(read_operators, 2);
    reveal_with_fuel(read_operand, 2);
    assert(read_operators(t, e, allow_pipe, st) == Outcome::Found(ab, skip_ws(t, e)));
    assert(read_operators(t, p, allow_pipe, seq![Item::Operand(a)]) == read_operators(t, e, allow_pipe, s2 + seq![Item::Operand(b)]));
}

/// An operand after any unary operators: the entries it adds to an expression.
#[verifier::opaque]
pub open spec fn read_operand(t: Seq<u8>, p: int) -> Outcome<Seq<Item>>
    decreases t.len() - p, 36nat,
{
    if !(0 <= p <= t.len()) {
        Outcome::Absent
    } else {
        let (ops, n) = unary_prefix(t, p);
        let q = p + n;
        if q > t.len() {
            Outcome::Absent
        } else {
            match read_base_with_accesses(t, q) {
                Outcome::Absent => {
                    if ops.len() > 0 {
                        Outcome::Failed(ParseErrorType::NoExprAfterUnaryOperator, q)
                    } else {
                        Outcome::Absent
                    }
                },
                Outcome::Failed(k, i) => Outcome::Failed(k, i),
                Outcome::Found(x, e) => Outcome::Found(ops.push(Item::Operand(x)), e),
            }
        }
    }
}

/// An operand followed by any accesses to it.
#[verifier::opaque]
pub open spec fn read_base_with_accesses(t: Seq<u8>, p: int) -> Outcome<Tree>
    decreases t.len() - p, 34nat,
{
    if !(0 <= p <= t.len()) {
        Outcome::Absent
    } else {
        match read_base(t, p) {
            Outcome::Absent => Outcome::Absent,
            Outcome::Failed(k, i) => Outcome::Failed(k, i),
            Outcome::Found(x, e) => {
                if p < e <= t.len() {
                    read_accesses(t, e, x)
                } else {
                    Outcome::Absent
                }
            },
        }
    }
}

/// The accesses after `x`, each after whitespace.
#[verifier::opaque]
pub open spec fn read_accesses(t: Seq<u8>, p: int, x: Tree) -> Outcome<Tree>
    decreases t.len() - p, 34nat,
{
    if !(0 <= p <= t.len()) {
        Outcome::Absent
    } else {
        let q = skip_ws(t, p);
        match read_access(t, q) {
            Outcome::Absent => Outcome::Found(x, q),
            Outcome::Failed(k, i) => Outcome::Failed(k, i),
            Outcome::Found(a, e) => {
                if q < e <= t.len() {
                    read_accesses(t, e, Tree::AccessChain(Box::new(x), Box::new(a)))
                } else {
                    Outcome::Absent
                }
            },
        }
    }
}

/// An operand: a `let` statement, `.` possibly followed by a name, an expression in
/// parentheses, or what `read_literal` reads.
#[verifier::opaque]
pub open spec fn read_base(t: Seq<u8>, p: int) -> Outcome<Tree>
    decreases t.len() - p, 32nat,
{
    if !(0 <= p <= t.len()) {
        Outcome::Absent
    } else {
        match read_let(t, p) {
            Outcome::Absent => {
                if lit_at(t, p, seq![46u8]) {
                    let q = skip_ws(t, p + 1);
                    let n = name_len(t, q, true);
                    if n > 0 {
                        Outcome::Found(Tree::AccessChain(Box::new(Tree::Dot), Box::new(name_tree(q, n))), q + n)
                    } else {
                        Outcome::Found(Tree::Dot, q)
                    }
                } else if lit_at(t, p, seq![40u8]) {
                    match read_expr(t, p + 1) {
                        Outcome::Absent => Outcome::Failed(ParseErrorType::NoParenContents, p + 1),
                        Outcome::Failed(k, i) => Outcome::Failed(k, i),
                        Outcome::Found(x, e) => {
                            let q = skip_ws(t, e);
                            if lit_at(t, q, seq![41u8]) {
                                Outcome::Found(x, q + 1)
                            } else {
                                Outcome::Failed(ParseErrorType::NoClosingParen, q)
                            }
                        },
                    }
                } else {
                    read_literal(t, p)
                }
            },
            r => r,
        }
    }
}

/// A map, list or string literal, an integer, `null`, `true`, `false`, a function
/// call, or a name.
#[verifier::opaque]
pub open spec fn read_literal(t: Seq<u8>, p: int) -> Outcome<Tree>
    decreases t.len() - p, 31nat,
{
    if !(0 <= p <= t.len()) {
        Outcome::Absent
    } else {
        match read_map(t, p) {
            Outcome::Absent => match read_list(t, p) {
                Outcome::Absent => match read_format_string(t, p) {
                    Outcome::Absent => {
                        let d = digit_run_end(t.skip(p), 0);
                        if d > 0 {
                            Outcome::Found(
                                Tree::Integer(
                                    (decimal_value(t.skip(p).subrange(0, d as int)) % 0x1_0000_0000_0000_0000) as u64,
                                ),
                                p + d,
                            )
                        } else if lit_at(t, p, seq![110u8, 117u8, 108u8, 108u8]) {
                            Outcome::Found(Tree::Null, p + 4)
                        } else if lit_at(t, p, seq![116u8, 114u8, 117u8, 101u8]) {
                            Outcome::Found(Tree::Bool(true), p + 4)
                        } else if lit_at(t, p, seq![102u8, 97u8, 108u8, 115u8, 101u8]) {
                            Outcome::Found(Tree::Bool(false), p + 5)
                        } else {
                            let n = name_len(t, p, true);
                            if n == 0 {
                                Outcome::Absent
                            } else {
                                let q = skip_ws(t, p + n);
                                if lit_at(t, q, seq![40u8]) {
                                    let q2 = skip_ws(t, q + 1);
                                    if p < q2 <= t.len() {
                                        read_args(t, q2, name_tree(p, n), None)
                                    } else {
                                        Outcome::Absent
                                    }
                                } else {
                                    Outcome::Found(name_tree(p, n), q)
                                }
                            }
                        }
                    },
                    r => r,
                },
                r => r,
            },
            r => r,
        }
    }
}

/// The arguments of a function call from `p` on, with those read so far in `args`,
/// and the closing parenthesis. An argument is an expression, possibly behind `:`, a
/// name and whitespace.
#[verifier::opaque]
pub open spec fn read_args(t: Seq<u8>, p: int, name: Tree, args: Option<Tree>) -> Outcome<Tree>
    decreases t.len() - p, 46nat,
{
    if !(0 <= p <= t.len()) {
        Outcome::Absent
    } else if lit_at(t, p, seq![58u8]) {
        let q = skip_ws(t, p + 1);
        let n = name_len(t, q, false);
        if n == 0 {
            Outcome::Failed(ParseErrorType::NoIdentifierAfterKeywordArgument, q)
        } else if ws_run(t.skip(q + n)) == 0 {
            Outcome::Failed(ParseErrorType::NoWhitespaceAfterKeywordArgumentKeyword, q + n)
        } else {
            let q2 = skip_ws(t, q + n);
            if p < q2 <= t.len() {
                read_arg(t, q2, Some(name_tree(q, n)), name, args)
            } else {
                Outcome::Absent
            }
        }
    } else {
        read_arg(t, p, None, name, args)
    }
}

/// An argument's expression, behind `keyword` if there is one, and what follows it.
#[verifier::opaque]
pub open spec fn read_arg(t: Seq<u8>, p: int, keyword: Option<Tree>, name: Tree, args: Option<Tree>) -> Outcome<
    Tree,
>
    decreases t.len() - p, 45nat,
{
    if !(0 <= p <= t.len()) {
        Outcome::Absent
    } else {
        match read_expr(t, p) {
            Outcome::Absent => args_end(t, p, name, args),
            Outcome::Failed(k, i) => Outcome::Failed(k, i),
            Outcome::Found(x, e) => {
                let arg = match keyword {
                    None => x,
                    Some(kw) => Tree::KeywordArgument(Box::new(kw), Box::new(x)),
                };
                let q = skip_ws(t, e);
                if lit_at(t, q, seq![44u8]) {
                    let q2 = skip_ws(t, q + 1);
                    if p < q2 <= t.len() {
                        read_args(t, q2, name, join(args, arg))
                    } else {
                        Outcome::Absent
                    }
                } else {
                    args_end(t, q, name, join(args, arg))
                }
            },
        }
    }
}

/// The closing parenthesis of a function call.
pub open spec fn args_end(t: Seq<u8>, p: int, name: Tree, args: Option<Tree>) -> Outcome<Tree> {
    if lit_at(t, p, seq![41u8]) {
        Outcome::Found(Tree::FcnCall(Box::new(name), boxed(args)), p + 1)
    } else {
        Outcome::Failed(ParseErrorType::NoClosingParenFcnCall, p)
    }
}

/// `let`, a name, `=`, and an expression without pipes.
#[verifier::opaque]
pub open spec fn read_let(t: Seq<u8>, p: int) -> Outcome<Tree>
    decreases t.len() - p, 30nat,
{
    if !(0 <= p <= t.len()) || !lit_at(t, p, seq![108u8, 101u8, 116u8]) {
        Outcome::Absent
    } else {
        let q = skip_ws(t, p + 3);
        let n = name_len(t, q, true);
        if n == 0 {
            Outcome::Failed(ParseErrorType::NoIdentifierInLetStmt, q)
        } else {
            let q2 = skip_ws(t, q + n);
            if !lit_at(t, q2, seq![61u8]) {
                Outcome::Failed(ParseErrorType::NoEqualsInLetStmt, q2)
            } else {
                let q3 = skip_ws(t, q2 + 1);
                if !(p < q3 <= t.len()) {
                    Outcome::Absent
                } else {
                    match read_inner_expr(t, q3, false) {
                        Outcome::Absent => Outcome::Failed(ParseErrorType::NoExprInLetStmt, q3),
                        Outcome::Failed(k, i) => Outcome::Failed(k, i),
                        Outcome::Found(x, e) => Outcome::Found(
                            Tree::LetStmt(Box::new(name_tree(q, n)), Box::new(x)),
                            e,
                        ),
                    }
                }
            }
        }
    }
}

/// A list literal: `[`, elements separated by commas, and `]`.
#[verifier::opaque]
pub open spec fn read_list(t: Seq<u8>, p: int) -> Outcome<Tree>
    decreases t.len() - p, 30nat,
{
    if !(0 <= p <= t.len()) || !lit_at(t, p, seq![91u8]) {
        Outcome::Absent
    } else {
        read_list_items(t, p + 1, None)
    }
}

/// The elements of a list literal from `p` on, with those read so far in `parts`, and
/// the closing bracket. An element is an expression, possibly behind `*` (spread).
#[verifier::opaque]
pub open spec fn read_list_items(t: Seq<u8>, p: int, parts: Option<Tree>) -> Outcome<Tree>
    decreases t.len() - p, 46nat,
{
    if !(0 <= p <= t.len()) {
        Outcome::Absent
    } else {
        let q = skip_ws(t, p);
        let spread = lit_at(t, q, seq![42u8]);
        let q2 = if spread {
            skip_ws(t, q + 1)
        } else {
            q
        };
        match read_expr(t, q2) {
            Outcome::Absent => list_end(t, q2, parts),
            Outcome::Failed(k, i) => Outcome::Failed(k, i),
            Outcome::Found(x, e) => {
                let part = if spread {
                    Tree::Spread(Box::new(x))
                } else {
                    x
                };
                let q3 = skip_ws(t, e);
                if lit_at(t, q3, seq![44u8]) {
                    if p < q3 + 1 <= t.len() {
                        read_list_items(t, q3 + 1, join(parts, part))
                    } else {
                        Outcome::Absent
                    }
                } else {
                    list_end(t, q3, join(parts, part))
                }
            },
        }
    }
}

/// The closing bracket of a list literal.
pub open spec fn list_end(t: Seq<u8>, p: int, parts: Option<Tree>) -> Outcome<Tree> {
    if lit_at(t, p, seq![93u8]) {
        Outcome::Found(Tree::ListLiteral(boxed(parts)), p + 1)
    } else {
        Outcome::Failed(ParseErrorType::NoListLiteralEndingBracket, p)
    }
}

/// A map literal: `{`, entries separated by commas, and `}`.
#[verifier::opaque]
pub open spec fn read_map(t: Seq<u8>, p: int) -> Outcome<Tree>
    decreases t.len() - p, 30nat,
{
    if !(0 <= p <= t.len()) || !lit_at(t, p, seq![123u8]) {
        Outcome::Absent
    } else {
        read_map_items(t, p + 1, None)
    }
}

/// The entries of a map literal from `p` on, with those read so far in `parts`, and the
/// closing brace. An entry is `*` and an expression (spread), or a key, `:` and a value.
#[verifier::opaque]
pub open spec fn read_map_items(t: Seq<u8>, p: int, parts: Option<Tree>) -> Outcome<Tree>
    decreases t.len() - p, 46nat,
{
    if !(0 <= p <= t.len()) {
        Outcome::Absent
    } else {
        let q = skip_ws(t, p);
        if lit_at(t, q, seq![42u8]) {
            let q2 = skip_ws(t, q + 1);
            match read_expr(t, q2) {
                Outcome::Absent => Outcome::Failed(ParseErrorType::NoExpressionAfterMapSpread, q2),
                Outcome::Failed(k, i) => Outcome::Failed(k, i),
                Outcome::Found(x, e) => read_map_more(t, p, e, join(parts, Tree::Spread(Box::new(x)))),
            }
        } else {
            match read_map_key(t, q) {
                Outcome::Absent => map_end(t, q, parts),
                Outcome::Failed(k, i) => Outcome::Failed(k, i),
                Outcome::Found(key, kp) => {
                    let q4 = skip_ws(t, kp);
                    if !lit_at(t, q4, seq![58u8]) {
                        Outcome::Failed(ParseErrorType::NoColonInMapLiteral, q4)
                    } else {
                        let q5 = skip_ws(t, q4 + 1);
                        if !(p < q5 <= t.len()) {
                            Outcome::Absent
                        } else {
                            match read_expr(t, q5) {
                                Outcome::Absent => Outcome::Failed(ParseErrorType::NoMapLiteralValue, q5),
                                Outcome::Failed(k, i) => Outcome::Failed(k, i),
                                Outcome::Found(v, e) => read_map_more(
                                    t,
                                    p,
                                    e,
                                    join(parts, Tree::MapKeyValPair(Box::new(key), Box::new(v))),
                                ),
                            }
                        }
                    }
                },
            }
        }
    }
}

/// After an entry that ends at `e` (of the entries read from `p` on): a comma and more
/// entries, or the closing brace.
#[verifier::opaque]
pub open spec fn read_map_more(t: Seq<u8>, p: int, e: int, parts: Option<Tree>) -> Outcome<Tree>
    decreases t.len() - p, 45nat,
{
    let q = skip_ws(t, e);
    if lit_at(t, q, seq![44u8]) {
        if 0 <= p < q + 1 <= t.len() {
            read_map_items(t, q + 1, parts)
        } else {
            Outcome::Absent
        }
    } else {
        map_end(t, q, parts)
    }
}

/// The key of a map entry: an expression in brackets, a string literal, or a name.
#[verifier::opaque]
pub open spec fn read_map_key(t: Seq<u8>, q: int) -> Outcome<Tree>
    decreases t.len() - q, 44nat,
{
    if !(0 <= q <= t.len()) {
        Outcome::Absent
    } else if lit_at(t, q, seq![91u8]) {
        let q2 = skip_ws(t, q + 1);
        match read_expr(t, q2) {
            Outcome::Absent => Outcome::Failed(ParseErrorType::NoExprInMapKey, q2),
            Outcome::Failed(k, i) => Outcome::Failed(k, i),
            Outcome::Found(key, e) => {
                let q3 = skip_ws(t, e);
                if lit_at(t, q3, seq![93u8]) {
                    Outcome::Found(key, q3 + 1)
                } else {
                    Outcome::Failed(ParseErrorType::NoClosingBracketForMapKey, q3)
                }
            },
        }
    } else {
        match read_format_string(t, q) {
            Outcome::Absent => {
                let n = name_len(t, q, false);
                if n == 0 {
                    Outcome::Absent
                } else {
                    Outcome::Found(name_tree(q, n), q + n)
                }
            },
            r => r,
        }
    }
}

/// The closing brace of a map literal.
pub open spec fn map_end(t: Seq<u8>, p: int, parts: Option<Tree>) -> Outcome<Tree> {
    if lit_at(t, p, seq![125u8]) {
        Outcome::Found(Tree::MapLiteral(boxed(parts)), p + 1)
    } else {
        Outcome::Failed(ParseErrorType::NoMapLiteralEndingBrace, p)
    }
}

/// A string literal in single quotes, or else in double quotes.
#[verifier::opaque]
pub open spec fn read_format_string(t: Seq<u8>, p: int) -> Outcome<Tree>
    decreases t.len() - p, 30nat,
{
    if !(0 <= p <= t.len()) {
        Outcome::Absent
    } else {
        match read_quoted(t, p, 39) {
            Outcome::Absent => read_quoted(t, p, 34),
            r => r,
        }
    }
}

/// A string literal in `quote`s.
#[verifier::opaque]
pub open spec fn read_quoted(t: Seq<u8>, p: int, quote: u8) -> Outcome<Tree>
    decreases t.len() - p, 28nat,
{
    if 0 <= p < t.len() && t[p] == quote {
        read_quoted_parts(t, p + 1, 0, quote, None)
    } else {
        Outcome::Absent
    }
}

/// The rest of a string literal: its text runs from `s`, and the `k` bytes from there
/// have been passed over; the parts before `s` are in `parts`. A `\` passes over the
/// byte after it; a brace starts an expression, which a closing brace ends; the
/// closing quote ends the literal. Each stretch of text before a brace or the closing
/// quote is a part, and so is each expression.
#[verifier::opaque]
pub open spec fn read_quoted_parts(t: Seq<u8>, s: int, k: int, quote: u8, parts: Option<Tree>) -> Outcome<Tree>
    decreases t.len() - (s + k), 28nat,
{
    if !(0 <= s && 0 <= k && s + k < t.len()) {
        Outcome::Failed(ParseErrorType::NoClosingQuoteOnString, s)
    } else {
        let ch = t[s + k];
        if ch == quote || ch == 123 {
            let parts2 = join(parts, Tree::SubString(s as usize, (s + k) as usize));
            if ch == quote {
                Outcome::Found(Tree::FormatString(boxed(parts2)), s + k + 1)
            } else {
                let q = skip_ws(t, s + k + 1);
                match read_expr(t, q) {
                    Outcome::Absent => Outcome::Failed(ParseErrorType::NoExprInFormatString, q),
                    Outcome::Failed(kind, i) => Outcome::Failed(kind, i),
                    Outcome::Found(x, e) => {
                        let q2 = skip_ws(t, e);
                        if !lit_at(t, q2, seq![125u8]) {
                            Outcome::Failed(ParseErrorType::NoClosingBraceInFormatString, q2)
                        } else if s + k < q2 + 1 <= t.len() {
                            read_quoted_parts(t, q2 + 1, 0, quote, join(parts2, x))
                        } else {
                            Outcome::Absent
                        }
                    },
                }
            }
        } else if ch == 92 {
            if s + k + 2 <= t.len() {
                read_quoted_parts(t, s, k + 2, quote, parts)
            } else {
                Outcome::Failed(ParseErrorType::NoClosingQuoteOnString, s)
            }
        } else {
            read_quoted_parts(t, s, k + 1, quote, parts)
        }
    }
}

/// An access: `.` and a name, or `[`, an index or a slice, and `]`.
#[verifier::opaque]
pub open spec fn read_access(t: Seq<u8>, p: int) -> Outcome<Tree>
    decreases t.len() - p, 30nat,
{
    if !(0 <= p <= t.len()) {
        Outcome::Absent
    } else if lit_at(t, p, seq![46u8]) {
        let q = skip_ws(t, p + 1);
        let n = name_len(t, q, true);
        if n == 0 {
            Outcome::Failed(ParseErrorType::NoIdentifierAfterDotAccess, q)
        } else {
            Outcome::Found(name_tree(q, n), q + n)
        }
    } else if lit_at(t, p, seq![91u8]) {
        let q = skip_ws(t, p + 1);
        match read_access_expr(t, q) {
            Outcome::Failed(k, i) => Outcome::Failed(k, i),
            Outcome::Absent => read_slice(t, q, None),
            Outcome::Found(x, e) => {
                if q < e <= t.len() {
                    read_slice(t, e, Some(x))
                } else {
                    Outcome::Absent
                }
            },
        }
    } else {
        Outcome::Absent
    }
}

/// The rest of a bracket access after its first index (`start`, if any), which ends at
/// `p`: `:` and an optional second index (a slice), then `]`.
#[verifier::opaque]
pub open spec fn read_slice(t: Seq<u8>, p: int, start: Option<Tree>) -> Outcome<Tree>
    decreases t.len() - p, 29nat,
{
    if !(0 <= p <= t.len()) {
        Outcome::Absent
    } else {
        let q2 = skip_ws(t, p);
        if lit_at(t, q2, seq![58u8]) {
            let q3 = skip_ws(t, q2 + 1);
            match read_access_expr(t, q3) {
                Outcome::Failed(k, i) => Outcome::Failed(k, i),
                Outcome::Absent => close_bracket(t, skip_ws(t, q3), Tree::SliceAccess(boxed(start), None)),
                Outcome::Found(y, e) => close_bracket(
                    t,
                    skip_ws(t, e),
                    Tree::SliceAccess(boxed(start), Some(Box::new(y))),
                ),
            }
        } else {
            match start {
                None => Outcome::Failed(ParseErrorType::NoExpressionForBracketAccess, q2),
                Some(x) => close_bracket(t, q2, x),
            }
        }
    }
}

/// The closing bracket of a bracket access.
pub open spec fn close_bracket(t: Seq<u8>, q: int, access: Tree) -> Outcome<Tree> {
    if lit_at(t, q, seq![93u8]) {
        Outcome::Found(access, q + 1)
    } else {
        Outcome::Failed(ParseErrorType::NoClosingBracketForBracketAccess, q)
    }
}

/// An index: `/` and an expression (counted from the end), or an expression.
#[verifier::opaque]
pub open spec fn read_access_expr(t: Seq<u8>, p: int) -> Outcome<Tree>
    decreases t.len() - p, 42nat,
{
    if !(0 <= p <= t.len()) {
        Outcome::Absent
    } else if lit_at(t, p, seq![47u8]) {
        let q = skip_ws(t, p + 1);
        match read_expr(t, q) {
            Outcome::Absent => Outcome::Failed(ParseErrorType::NoExprReverseIndex, q),
            Outcome::Failed(k, i) => Outcome::Failed(k, i),
            Outcome::Found(x, e) => Outcome::Found(Tree::ReverseIdx(Box::new(x)), e),
        }
    } else {
        read_expr(t, p)
    }
}

/// A whole query from `p` on: an expression (or nothing, which reads as `null`) with
/// whitespace around it, reaching the end of the text.
pub open spec fn read_query(t: Seq<u8>, p: int) -> Outcome<Tree> {
    let q = skip_ws(t, p);
    match read_expr(t, q) {
        Outcome::Failed(k, i) => Outcome::Failed(k, i),
        Outcome::Absent => query_end(t, Tree::Null, q),
        Outcome::Found(x, e) => query_end(t, x, e),
    }
}

/// The end of a query: after whitespace, nothing may be left.
pub open spec fn query_end(t: Seq<u8>, x: Tree, e: int) -> Outcome<Tree> {
    let q = skip_ws(t, e);
    if q < t.len() {
        Outcome::Failed(ParseErrorType::IncompleteParse, q)
    } else {
        Outcome::Found(x, q)
    }
}

} // verus!
