//! Range facts about the expression semantics.
//!
//! The central fact is [`lemma_eval_in_range`]: a well-formed expression
//! of width `w` always evaluates below `2^w`.  Everything that reasons
//! about overflow, slicing or concatenation builds on it.

use vstd::prelude::*;
use vstd::arithmetic::power2::{pow2, lemma_pow2_adds, lemma_pow2_pos, lemma2_to64};
use vstd::arithmetic::power::lemma_pow_increases;
use vstd::arithmetic::mul::{lemma_mul_inequality, lemma_mul_is_distributive_sub_other_way};
use vstd::arithmetic::div_mod::lemma_div_is_ordered_by_denominator;

use crate::expr::{BinOp, Env, Expr, bits_and, bits_or, bits_xor, concat_val, denote};

verus! {

/// `2^a <= 2^b` whenever `a <= b`.
pub proof fn lemma_pow2_le(a: nat, b: nat)
    requires
        a <= b,
    ensures
        pow2(a) <= pow2(b),
{
    vstd::arithmetic::power2::lemma_pow2(a);
    vstd::arithmetic::power2::lemma_pow2(b);
    lemma_pow_increases(2, a, b);
}

/// A bitwise and of `w`-bit values stays below `2^w`.
pub proof fn lemma_bits_and_bound(x: nat, y: nat, w: nat)
    ensures
        bits_and(x, y, w) < pow2(w),
    decreases w,
{
    lemma_pow2_pos(w);
    if w == 0 {
    } else {
        lemma_bits_and_bound(x / 2, y / 2, (w - 1) as nat);
        vstd::arithmetic::power2::lemma_pow2_unfold(w);
    }
}

/// A bitwise or of `w`-bit values stays below `2^w`.
pub proof fn lemma_bits_or_bound(x: nat, y: nat, w: nat)
    ensures
        bits_or(x, y, w) < pow2(w),
    decreases w,
{
    lemma_pow2_pos(w);
    if w == 0 {
    } else {
        lemma_bits_or_bound(x / 2, y / 2, (w - 1) as nat);
        vstd::arithmetic::power2::lemma_pow2_unfold(w);
    }
}

/// A bitwise exclusive or of `w`-bit values stays below `2^w`.
pub proof fn lemma_bits_xor_bound(x: nat, y: nat, w: nat)
    ensures
        bits_xor(x, y, w) < pow2(w),
    decreases w,
{
    lemma_pow2_pos(w);
    if w == 0 {
    } else {
        lemma_bits_xor_bound(x / 2, y / 2, (w - 1) as nat);
        vstd::arithmetic::power2::lemma_pow2_unfold(w);
    }
}

/// Every binary operation on in-range operands yields an in-range
/// result: below `2` for predicates, below `2^w` otherwise.
pub proof fn lemma_denote_in_range(op: BinOp, x: nat, y: nat, w: nat)
    requires
        w >= 1,
        x < pow2(w),
        y < pow2(w),
    ensures
        op.is_predicate() ==> denote(op, x, y, w) <= 1,
        denote(op, x, y, w) < pow2(if op.is_predicate() {
            1nat
        } else {
            w
        }),
{
    lemma_pow2_pos(w);
    lemma2_to64();
    lemma_pow2_le(1, w);
    match op {
        BinOp::Udiv => {
            if y != 0 {
                lemma_div_is_ordered_by_denominator(x as int, 1, y as int);
            }
        },
        BinOp::Urem => {
        },
        BinOp::And => {
            lemma_bits_and_bound(x, y, w);
        },
        BinOp::Or => {
            lemma_bits_or_bound(x, y, w);
        },
        BinOp::Xor => {
            lemma_bits_xor_bound(x, y, w);
        },
        BinOp::Lshr => {
            lemma_pow2_pos(y);
            lemma_div_is_ordered_by_denominator(x as int, 1, pow2(y) as int);
        },
        _ => {
        },
    }
}

/// A concatenation of in-range parts is in range for the joint width.
pub proof fn lemma_concat_bound(hv: nat, lv: nat, hw: nat, lw: nat)
    requires
        hv < pow2(hw),
        lv < pow2(lw),
    ensures
        concat_val(hv, lv, lw) < pow2(hw + lw),
{
    lemma_pow2_adds(hw, lw);
    lemma_mul_inequality(hv as int, pow2(hw) as int - 1, pow2(lw) as int);
    lemma_mul_is_distributive_sub_other_way(pow2(lw) as int, pow2(hw) as int, 1);
    lemma_pow2_pos(lw);
}

/// A well-formed expression has positive width and evaluates below
/// `2^w` under every assignment.
pub proof fn lemma_eval_in_range(e: Expr, env: Env)
    requires
        e.wf(),
    ensures
        e.wid() >= 1,
        e.eval(env) < pow2(e.wid()),
    decreases e,
{
    lemma_pow2_pos(e.wid());
    match e {
        Expr::Const { w, v } => {},
        Expr::Sym { w, name } => {},
        Expr::Not { e: inner } => {
            lemma_eval_in_range(*inner, env);
        },
        Expr::Binop { op, a, b } => {
            lemma_eval_in_range(*a, env);
            lemma_eval_in_range(*b, env);
            lemma_denote_in_range(op, a.eval(env), b.eval(env), a.wid());
        },
        Expr::Ite { c, t, e: el } => {
            lemma_eval_in_range(*t, env);
            lemma_eval_in_range(*el, env);
        },
        Expr::Slice { lo, hi, e: inner } => {
            lemma_pow2_pos(lo as nat);
            lemma_pow2_pos((hi - lo + 1) as nat);
        },
        Expr::Concat { hi_e, lo_e } => {
            lemma_eval_in_range(*hi_e, env);
            lemma_eval_in_range(*lo_e, env);
            let hw = hi_e.wid();
            let lw = lo_e.wid();
            let hv = hi_e.eval(env);
            let lv = lo_e.eval(env);
            lemma_pow2_adds(hw, lw);
            lemma_mul_inequality(hv as int, pow2(hw) as int - 1, pow2(lw) as int);
            lemma_mul_is_distributive_sub_other_way(
                pow2(lw) as int,
                pow2(hw) as int,
                1,
            );
            lemma_pow2_pos(lw);
        },
        Expr::ZeroExt { w, e: inner } => {
            lemma_eval_in_range(*inner, env);
            lemma_pow2_le(inner.wid(), w as nat);
        },
        Expr::SignExt { w, e: inner } => {
            lemma_eval_in_range(*inner, env);
            lemma_pow2_le(inner.wid(), w as nat);
        },
    }
}

} // verus!
