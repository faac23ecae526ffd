//! Laws of template expressions: no expression the parser accepts is more
//! than sixteen nodes deep, and what the logical and comparison operators
//! compute.
use vstd::prelude::*;
use crate::expression::{
    ast_depth, eval_spec, p_bin, p_bin_rest, p_primary, p_unary, parse_spec, truthy, BinOp, ExprView, TokenView, UnOp,
};
use crate::json::JValue;
use crate::number::Number;

verus! {

/// Nesting depth of an expression as the parser counts it: each unary
/// operator and each right operand is one level deeper than its parent.
pub open spec fn nesting(e: ExprView) -> nat
    decreases e,
{
    match e {
        ExprView::Un(_, x) => 1 + nesting(*x),
        ExprView::Bin(_, l, r) => {
            let a = nesting(*l);
            let b = 1 + nesting(*r);
            if a >= b {
                a
            } else {
                b
            }
        },
        _ => 0,
    }
}

proof fn lemma_bin(ts: Seq<TokenView>, pos: int, d: int, lvl: int)
    requires
        0 <= d <= 16,
    ensures
        p_bin(ts, pos, d, lvl) matches Ok((e, _)) ==> d + nesting(e) <= 16,
    decreases ts.len() - pos, lvl, 2int,
{
    if 0 <= pos <= ts.len() && lvl >= 2 {
        if lvl == 2 {
            lemma_unary(ts, pos, d);
        } else {
            lemma_bin(ts, pos, d, lvl - 1);
        }
        let sub = if lvl == 2 {
            p_unary(ts, pos, d)
        } else {
            p_bin(ts, pos, d, lvl - 1)
        };
        match sub {
            Ok((l, p)) => {
                if pos < p <= ts.len() {
                    lemma_bin_rest(ts, l, p, d, lvl);
                }
            },
            Err(_) => {},
        }
    }
}

proof fn lemma_bin_rest(ts: Seq<TokenView>, left: ExprView, pos: int, d: int, lvl: int)
    requires
        0 <= d <= 16,
        d + nesting(left) <= 16,
    ensures
        p_bin_rest(ts, left, pos, d, lvl) matches Ok((e, _)) ==> d + nesting(e) <= 16,
    decreases ts.len() - pos, lvl, 1int,
{
    if 0 <= pos <= ts.len() && lvl >= 2 {
        match crate::expression::bin_op_at(ts, pos, lvl) {
            None => {},
            Some(op) => {
                if d + 1 <= 16 {
                    if lvl == 2 {
                        lemma_unary(ts, pos + 1, d + 1);
                    } else {
                        lemma_bin(ts, pos + 1, d + 1, lvl - 1);
                    }
                    let sub = if lvl == 2 {
                        p_unary(ts, pos + 1, d + 1)
                    } else {
                        p_bin(ts, pos + 1, d + 1, lvl - 1)
                    };
                    match sub {
                        Ok((r, p2)) => {
                            if pos < p2 <= ts.len() {
                                let next = ExprView::Bin(op, Box::new(left), Box::new(r));
                                assert(d + nesting(next) <= 16);
                                lemma_bin_rest(ts, next, p2, d, lvl);
                            }
                        },
                        Err(_) => {},
                    }
                }
            },
        }
    }
}

proof fn lemma_unary(ts: Seq<TokenView>, pos: int, d: int)
    requires
        0 <= d <= 16,
    ensures
        p_unary(ts, pos, d) matches Ok((e, _)) ==> d + nesting(e) <= 16,
    decreases ts.len() - pos, 1int, 0int,
{
    if 0 <= pos <= ts.len() {
        if pos < ts.len() && (ts[pos] is Bang || ts[pos] is Minus) {
            if d + 1 <= 16 {
                lemma_unary(ts, pos + 1, d + 1);
            }
        } else {
            lemma_primary(ts, pos, d);
        }
    }
}

proof fn lemma_primary(ts: Seq<TokenView>, pos: int, d: int)
    requires
        0 <= d <= 16,
    ensures
        p_primary(ts, pos, d) matches Ok((e, _)) ==> d + nesting(e) <= 16,
    decreases ts.len() - pos, 0int, 0int,
{
    if 0 <= pos < ts.len() {
        if ts[pos] is LParen && d + 1 <= 16 {
            lemma_bin(ts, pos + 1, d + 1, 7);
        }
    }
}

/// Every expression the parser accepts is at most sixteen nodes deep and
/// nests operands at most sixteen levels deep; a deeper tree is a parse
/// error.
pub proof fn law_parse_depth_limit(ts: Seq<TokenView>)
    ensures
        parse_spec(ts) matches Ok(e) ==> ast_depth(e) <= 16 && nesting(e) <= 16,
{
    lemma_bin(ts, 0, 0, 7);
}


// ---------------------------------------------------------------------------
// Logical and comparison operators
// ---------------------------------------------------------------------------

/// `a || b` is true exactly when at least one operand is truthy, and
/// `a && b` exactly when both are; both evaluate their operands left to
/// right, and an operand's error is the result.
pub proof fn law_logical_operators(l: ExprView, r: ExprView)
    ensures
        eval_spec(l) matches Ok(a) ==> (eval_spec(r) matches Ok(b) ==> eval_spec(
            ExprView::Bin(BinOp::Or, Box::new(l), Box::new(r)),
        ) == Ok::<JValue, crate::error::EvalErrorView>(JValue::Bool(truthy(a) || truthy(b))) && eval_spec(
            ExprView::Bin(BinOp::And, Box::new(l), Box::new(r)),
        ) == Ok::<JValue, crate::error::EvalErrorView>(JValue::Bool(truthy(a) && truthy(b)))),
        eval_spec(l) is Err ==> eval_spec(ExprView::Bin(BinOp::Or, Box::new(l), Box::new(r))) == eval_spec(l),
        eval_spec(l) is Ok && eval_spec(r) is Err ==> eval_spec(
            ExprView::Bin(BinOp::Or, Box::new(l), Box::new(r)),
        ) == eval_spec(r),
{
}

/// `!x` is true exactly when `x` is not truthy.
pub proof fn law_not_operator(x: ExprView)
    ensures
        eval_spec(x) matches Ok(a) ==> eval_spec(ExprView::Un(UnOp::Not, Box::new(x)))
            == Ok::<JValue, crate::error::EvalErrorView>(JValue::Bool(!truthy(a))),
{
}

/// On numbers, `<` and `>` compare the fractions (by cross-multiplying)
/// and `!=` is the negation of `==`.
pub proof fn law_number_comparisons(x: Number, y: Number)
    ensures
        eval_spec(ExprView::Bin(BinOp::Lt, Box::new(ExprView::Num(x)), Box::new(ExprView::Num(y))))
            == Ok::<JValue, crate::error::EvalErrorView>(JValue::Bool(x.num * y.den < y.num * x.den)),
        eval_spec(ExprView::Bin(BinOp::Gt, Box::new(ExprView::Num(x)), Box::new(ExprView::Num(y))))
            == Ok::<JValue, crate::error::EvalErrorView>(JValue::Bool(x.num * y.den > y.num * x.den)),
        eval_spec(ExprView::Bin(BinOp::EqEq, Box::new(ExprView::Num(x)), Box::new(ExprView::Num(y))))
            == Ok::<JValue, crate::error::EvalErrorView>(JValue::Bool(x.num * y.den == y.num * x.den)),
        eval_spec(ExprView::Bin(BinOp::Neq, Box::new(ExprView::Num(x)), Box::new(ExprView::Num(y))))
            == Ok::<JValue, crate::error::EvalErrorView>(JValue::Bool(x.num * y.den != y.num * x.den)),
{
    assert(eval_spec(ExprView::Num(x)) == Ok::<JValue, crate::error::EvalErrorView>(JValue::Number(x)));
    assert(eval_spec(ExprView::Num(y)) == Ok::<JValue, crate::error::EvalErrorView>(JValue::Number(y)));
    let o = crate::number::num_order(x, y);
    assert(o == crate::text::Ord3::Less <==> x.num * y.den < y.num * x.den);
    assert(o == crate::text::Ord3::Greater <==> x.num * y.den > y.num * x.den);
}

/// The arithmetic operators compute exact values: the number `r` that
/// `x + y`, `x - y`, `x * y` or `x / y` gives stands for the sum,
/// difference, product or quotient of the fractions `x` and `y` (a quotient
/// times the divisor is the dividend).
pub proof fn law_arithmetic_is_exact(x: Number, y: Number)
    ensures
        eval_spec(ExprView::Bin(BinOp::Add, Box::new(ExprView::Num(x)), Box::new(ExprView::Num(y)))) matches Ok(
            JValue::Number(r),
        ) ==> r.num * (x.den * y.den) == (x.num * y.den + y.num * x.den) * r.den,
        eval_spec(ExprView::Bin(BinOp::Sub, Box::new(ExprView::Num(x)), Box::new(ExprView::Num(y)))) matches Ok(
            JValue::Number(r),
        ) ==> r.num * (x.den * y.den) == (x.num * y.den - y.num * x.den) * r.den,
        eval_spec(ExprView::Bin(BinOp::Mul, Box::new(ExprView::Num(x)), Box::new(ExprView::Num(y)))) matches Ok(
            JValue::Number(r),
        ) ==> r.num * (x.den * y.den) == (x.num * y.num) * r.den,
        eval_spec(ExprView::Bin(BinOp::Div, Box::new(ExprView::Num(x)), Box::new(ExprView::Num(y)))) matches Ok(
            JValue::Number(r),
        ) ==> r.num * y.num * x.den == x.num * y.den * r.den,
        y.num == 0 ==> eval_spec(ExprView::Bin(BinOp::Div, Box::new(ExprView::Num(x)), Box::new(ExprView::Num(y))))
            is Err,
{
    assert(eval_spec(ExprView::Num(x)) == Ok::<JValue, crate::error::EvalErrorView>(JValue::Number(x)));
    assert(eval_spec(ExprView::Num(y)) == Ok::<JValue, crate::error::EvalErrorView>(JValue::Number(y)));
    crate::number::law_make_keeps_value(x.num * y.den + y.num * x.den, x.den * y.den, true);
    crate::number::law_make_keeps_value(x.num * y.den - y.num * x.den, x.den * y.den, true);
    crate::number::law_make_keeps_value(x.num * y.num, x.den * y.den, true);
    let s = crate::number::sgn(y.num as int);
    let ay = crate::number::abs(y.num as int) as int;
    crate::number::law_make_keeps_value(s * (x.num * y.den), x.den * ay, true);
    if let Ok(JValue::Number(r)) = eval_spec(ExprView::Bin(BinOp::Div, Box::new(ExprView::Num(x)), Box::new(ExprView::Num(y)))) {
        assert(y.num != 0);
        assert(crate::number::spec_div(x, y) == Some(r));
        assert(r.num * (x.den * ay) == s * (x.num * y.den) * r.den);
        assert(y.num == s * ay);
        assert(r.num * y.num * x.den == x.num * y.den * r.den) by (nonlinear_arith)
            requires
                r.num * (x.den * ay) == s * (x.num * y.den) * r.den,
                y.num == s * ay,
                s * s == 1,
        ;
    }
}

/// A literal at `pos`, followed by the end or by a token that is no
/// operator below level `top`, parses at every level up to `top` as itself.
proof fn lemma_literal_levels(ts: Seq<TokenView>, pos: int, d: int, x: ExprView, top: int)
    requires
        0 <= pos < ts.len(),
        0 <= d <= 16,
        2 <= top <= 7,
        p_unary(ts, pos, d) == Ok::<(ExprView, int), crate::error::EvalErrorView>((x, pos + 1)),
        forall|l: int| 2 <= l <= top ==> #[trigger] crate::expression::bin_op_at(ts, pos + 1, l) is None,
    ensures
        forall|l: int| 2 <= l <= top ==> #[trigger] p_bin(ts, pos, d, l) == Ok::<
            (ExprView, int),
            crate::error::EvalErrorView,
        >((x, pos + 1)),
    decreases top,
{
    if top > 2 {
        lemma_literal_levels(ts, pos, d, x, top - 1);
        assert(p_bin(ts, pos, d, top - 1) == Ok::<(ExprView, int), crate::error::EvalErrorView>((x, pos + 1)));
    }
    assert(crate::expression::bin_op_at(ts, pos + 1, top) is None);
    assert(p_bin_rest(ts, x, pos + 1, d, top) == Ok::<(ExprView, int), crate::error::EvalErrorView>((x, pos + 1)));
    assert(p_bin(ts, pos, d, top) == Ok::<(ExprView, int), crate::error::EvalErrorView>((x, pos + 1)));
}

/// `a op b` between two literals, for a token of the top level (`||`) or
/// the next (`&&`), parses into the operator's node.
proof fn lemma_parse_binary_literals(a: bool, b: bool, tok: TokenView, op: BinOp, lvl: int)
    requires
        lvl == 7 || lvl == 6,
        lvl == 7 ==> tok == TokenView::OrOr && op == BinOp::Or,
        lvl == 6 ==> tok == TokenView::AndAnd && op == BinOp::And,
    ensures
        parse_spec(seq![TokenView::Bool(a), tok, TokenView::Bool(b)]) == Ok::<ExprView, crate::error::EvalErrorView>(
            ExprView::Bin(op, Box::new(ExprView::Bool(a)), Box::new(ExprView::Bool(b))),
        ),
{
    let ts = seq![TokenView::Bool(a), tok, TokenView::Bool(b)];
    let xa = ExprView::Bool(a);
    let xb = ExprView::Bool(b);
    let e = ExprView::Bin(op, Box::new(xa), Box::new(xb));
    assert(p_primary(ts, 0, 0) == Ok::<(ExprView, int), crate::error::EvalErrorView>((xa, 1)));
    assert(p_unary(ts, 0, 0) == Ok::<(ExprView, int), crate::error::EvalErrorView>((xa, 1)));
    assert(p_primary(ts, 2, 1) == Ok::<(ExprView, int), crate::error::EvalErrorView>((xb, 3)));
    assert(p_unary(ts, 2, 1) == Ok::<(ExprView, int), crate::error::EvalErrorView>((xb, 3)));
    assert forall|l: int| 2 <= l <= lvl - 1 implies #[trigger] crate::expression::bin_op_at(ts, 1, l) is None by {}
    assert forall|l: int| 2 <= l <= 6 implies #[trigger] crate::expression::bin_op_at(ts, 3, l) is None by {}
    lemma_literal_levels(ts, 0, 0, xa, lvl - 1);
    lemma_literal_levels(ts, 2, 1, xb, 6);
    assert(p_bin(ts, 0, 0, lvl - 1) == Ok::<(ExprView, int), crate::error::EvalErrorView>((xa, 1)));
    assert(p_bin(ts, 2, 1, lvl - 1) == Ok::<(ExprView, int), crate::error::EvalErrorView>((xb, 3)));
    assert(crate::expression::bin_op_at(ts, 1, lvl) == Some(op));
    assert(crate::expression::bin_op_at(ts, 3, lvl) is None);
    assert(p_bin_rest(ts, e, 3, 0, lvl) == Ok::<(ExprView, int), crate::error::EvalErrorView>((e, 3)));
    assert(p_bin_rest(ts, xa, 1, 0, lvl) == Ok::<(ExprView, int), crate::error::EvalErrorView>((e, 3)));
    assert(p_bin(ts, 0, 0, lvl) == Ok::<(ExprView, int), crate::error::EvalErrorView>((e, 3)));
    if lvl == 6 {
        assert(crate::expression::bin_op_at(ts, 3, 7) is None);
        assert(p_bin_rest(ts, e, 3, 0, 7) == Ok::<(ExprView, int), crate::error::EvalErrorView>((e, 3)));
        assert(p_bin(ts, 0, 0, 7) == Ok::<(ExprView, int), crate::error::EvalErrorView>((e, 3)));
    }
    assert(ast_depth(xa) == 1);
    assert(ast_depth(xb) == 1);
    assert(ast_depth(e) == 2);
}

/// `a || b` and `a && b` between two literals parse into the `or` and the
/// `and` of the two, which are the logical or and and of the literals: so
/// `true || false` is true and `true && false` false.
pub proof fn law_logical_tokens_parse(a: bool, b: bool)
    ensures
        parse_spec(seq![TokenView::Bool(a), TokenView::OrOr, TokenView::Bool(b)]) == Ok::<
            ExprView,
            crate::error::EvalErrorView,
        >(ExprView::Bin(BinOp::Or, Box::new(ExprView::Bool(a)), Box::new(ExprView::Bool(b)))),
        parse_spec(seq![TokenView::Bool(a), TokenView::AndAnd, TokenView::Bool(b)]) == Ok::<
            ExprView,
            crate::error::EvalErrorView,
        >(ExprView::Bin(BinOp::And, Box::new(ExprView::Bool(a)), Box::new(ExprView::Bool(b)))),
        eval_spec(ExprView::Bin(BinOp::Or, Box::new(ExprView::Bool(a)), Box::new(ExprView::Bool(b))))
            == Ok::<JValue, crate::error::EvalErrorView>(JValue::Bool(a || b)),
        eval_spec(ExprView::Bin(BinOp::And, Box::new(ExprView::Bool(a)), Box::new(ExprView::Bool(b))))
            == Ok::<JValue, crate::error::EvalErrorView>(JValue::Bool(a && b)),
{
    lemma_parse_binary_literals(a, b, TokenView::OrOr, BinOp::Or, 7);
    lemma_parse_binary_literals(a, b, TokenView::AndAnd, BinOp::And, 6);
    assert(eval_spec(ExprView::Bool(a)) == Ok::<JValue, crate::error::EvalErrorView>(JValue::Bool(a)));
    assert(eval_spec(ExprView::Bool(b)) == Ok::<JValue, crate::error::EvalErrorView>(JValue::Bool(b)));
    assert(truthy(JValue::Bool(a)) == a);
    assert(truthy(JValue::Bool(b)) == b);
}

/// `+` with a string operand concatenates: two strings are joined, and a
/// string joined with another value takes that value's JSON text.
pub proof fn law_string_concatenation(a: Seq<char>, b: Seq<char>, n: Number)
    ensures
        eval_spec(ExprView::Bin(BinOp::Add, Box::new(ExprView::Str(a)), Box::new(ExprView::Str(b)))) == Ok::<
            JValue,
            crate::error::EvalErrorView,
        >(JValue::Str(a + b)),
        eval_spec(ExprView::Bin(BinOp::Add, Box::new(ExprView::Str(a)), Box::new(ExprView::Num(n)))) == Ok::<
            JValue,
            crate::error::EvalErrorView,
        >(JValue::Str(a + crate::json::json_text(JValue::Number(n)))),
        eval_spec(ExprView::Bin(BinOp::Add, Box::new(ExprView::Num(n)), Box::new(ExprView::Str(b)))) == Ok::<
            JValue,
            crate::error::EvalErrorView,
        >(JValue::Str(crate::json::json_text(JValue::Number(n)) + b)),
{
    assert(eval_spec(ExprView::Str(a)) == Ok::<JValue, crate::error::EvalErrorView>(JValue::Str(a)));
    assert(eval_spec(ExprView::Str(b)) == Ok::<JValue, crate::error::EvalErrorView>(JValue::Str(b)));
    assert(eval_spec(ExprView::Num(n)) == Ok::<JValue, crate::error::EvalErrorView>(JValue::Number(n)));
}

/// `-x` is the negation of `x`, and `<=` / `>=` on numbers compare the
/// fractions inclusively.
pub proof fn law_negation_and_inclusive_comparisons(x: Number, y: Number)
    ensures
        eval_spec(ExprView::Un(UnOp::Neg, Box::new(ExprView::Num(x)))) matches Ok(JValue::Number(r)) ==> r.num
            * x.den == -x.num * r.den,
        eval_spec(ExprView::Bin(BinOp::LtEq, Box::new(ExprView::Num(x)), Box::new(ExprView::Num(y))))
            == Ok::<JValue, crate::error::EvalErrorView>(JValue::Bool(x.num * y.den <= y.num * x.den)),
        eval_spec(ExprView::Bin(BinOp::GtEq, Box::new(ExprView::Num(x)), Box::new(ExprView::Num(y))))
            == Ok::<JValue, crate::error::EvalErrorView>(JValue::Bool(x.num * y.den >= y.num * x.den)),
{
    assert(eval_spec(ExprView::Num(x)) == Ok::<JValue, crate::error::EvalErrorView>(JValue::Number(x)));
    assert(eval_spec(ExprView::Num(y)) == Ok::<JValue, crate::error::EvalErrorView>(JValue::Number(y)));
    crate::number::law_make_keeps_value(-x.num, x.den as int, true);
    let o = crate::number::num_order(x, y);
    assert(o == crate::text::Ord3::Less <==> x.num * y.den < y.num * x.den);
    assert(o == crate::text::Ord3::Equal <==> x.num * y.den == y.num * x.den);
    assert(o == crate::text::Ord3::Greater <==> x.num * y.den > y.num * x.den);
}

} // verus!
