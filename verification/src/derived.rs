//! Derived operations of the algebra: in-place bit replacement and
//! saturating addition.  Each is built out of the primitive operations
//! and verified against an exact arithmetic statement of its result.

use vstd::prelude::*;
use vstd::arithmetic::power2::{pow2, lemma_pow2_pos, lemma_pow2_unfold, lemma2_to64};
use vstd::arithmetic::div_mod::{lemma_small_mod, lemma_basic_div, lemma_div_is_ordered, lemma_div_by_self, lemma_multiply_divide_lt};

use crate::context::ones_expr;
use crate::expr::{Env, Expr, signed_overflows, slice_val, to_signed};
use crate::semantics::lemma_eval_in_range;

verus! {

/// The value of `x` (of width `w`) with its bits `k ..= k+m-1` replaced
/// by a value `y` of width `m`: the bits above stay, `y` moves into
/// place, and the bits below stay.
pub open spec fn replace_val(x: nat, y: nat, k: nat, m: nat, w: nat) -> nat {
    (if k + m < w {
        slice_val(x, k + m, (w - 1) as nat) * pow2(k + m)
    } else {
        0nat
    }) + y * pow2(k) + (if k > 0 {
        slice_val(x, 0, (k - 1) as nat)
    } else {
        0nat
    })
}

/// Saturating unsigned addition on values of width `w`.
pub open spec fn uadds_val(x: nat, y: nat, w: nat) -> nat {
    if x + y >= pow2(w) {
        (pow2(w) - 1) as nat
    } else {
        x + y
    }
}

/// Saturating signed addition on values of width `w`: on overflow the
/// result saturates toward the sign of the first operand.
pub open spec fn sadds_val(x: nat, y: nat, w: nat) -> nat {
    if signed_overflows(to_signed(x, w) + to_signed(y, w), w) {
        if x >= pow2((w - 1) as nat) {
            pow2((w - 1) as nat)
        } else {
            (pow2((w - 1) as nat) - 1) as nat
        }
    } else {
        ((x + y) % pow2(w)) as nat
    }
}

impl Expr {
    /// Writes `replace_with` into `self` at bit offset `start_idx`,
    /// preserving all unaffected bits.  The result has the width of
    /// `self`.
    pub fn replace_part(&self, start_idx: u32, replace_with: Expr) -> (r: Expr)
        requires
            self.wf(),
            replace_with.wf(),
            start_idx + replace_with.wid() <= self.wid(),
        ensures
            r.wf(),
            r.wid() == self.wid(),
            forall|env: Env| #[trigger]
                r.eval(env) == replace_val(
                    self.eval(env),
                    replace_with.eval(env),
                    start_idx as nat,
                    replace_with.wid(),
                    self.wid(),
                ),
    {
        let w = self.len();
        let m = replace_with.len();
        let end_idx = start_idx + m;
        let ghost rep = replace_with;
        let value = if start_idx == 0 {
            replace_with
        } else {
            let prefix = self.slice(0, start_idx - 1);
            replace_with.concat(&prefix)
        };
        proof {
            lemma2_to64();
            assert forall|env: Env| #[trigger]
                value.eval(env) == rep.eval(env) * pow2(start_idx as nat) + (if start_idx > 0 {
                    slice_val(self.eval(env), 0, (start_idx - 1) as nat)
                } else {
                    0nat
                }) by {
                if start_idx == 0 {
                }
            }
        }
        let value = if end_idx == w {
            value
        } else {
            let suffix = self.slice(end_idx, w - 1);
            suffix.concat(&value)
        };
        value
    }

    /// Saturating unsigned addition: the sum, or the all-ones value on
    /// overflow.  Both operands must have the same width.
    pub fn uadds(&self, other: &Expr) -> (r: Expr)
        requires
            self.wf(),
            other.wf(),
            self.wid() == other.wid(),
        ensures
            r.wf(),
            r.wid() == self.wid(),
            forall|env: Env| #[trigger]
                r.eval(env) == uadds_val(self.eval(env), other.eval(env), self.wid()),
            *self is Const && *other is Const ==> r is Const,
    {
        let w = self.len();
        let result = self.add(other);
        let overflow = self.uaddo(other);
        let saturated = ones_expr(w);
        let r = overflow.ite(&saturated, &result);
        proof {
            lemma_pow2_pos(w as nat);
            assert forall|env: Env| #[trigger]
                r.eval(env) == uadds_val(self.eval(env), other.eval(env), self.wid()) by {
                lemma_eval_in_range(*self, env);
                lemma_eval_in_range(*other, env);
                let x = self.eval(env);
                let y = other.eval(env);
                if x + y >= pow2(w as nat) {
                    assert(overflow.eval(env) == 1);
                } else {
                    assert(overflow.eval(env) == 0);
                    lemma_small_mod((x + y) as nat, pow2(w as nat));
                }
            }
        }
        r
    }

    /// Saturating signed addition: the sum, or on overflow the signed
    /// minimum when `self` is negative and the signed maximum
    /// otherwise.  Both operands must have the same width, at least 2.
    pub fn sadds(&self, other: &Expr) -> (r: Expr)
        requires
            self.wf(),
            other.wf(),
            self.wid() == other.wid(),
            self.wid() >= 2,
        ensures
            r.wf(),
            r.wid() == self.wid(),
            forall|env: Env| #[trigger]
                r.eval(env) == sadds_val(self.eval(env), other.eval(env), self.wid()),
            *self is Const && *other is Const ==> r is Const,
    {
        let w = self.len();
        let ctx = crate::context::Context::new();
        let result = self.add(other);
        let overflow = self.saddo(other);
        let min = ctx.signed_minimum(w);
        let max = ctx.signed_max(w);
        let is_negative = self.slice(w - 1, w - 1);
        let picked = is_negative.ite(&min, &max);
        let r = overflow.ite(&picked, &result);
        proof {
            lemma_pow2_pos(w as nat);
            lemma_pow2_pos((w - 1) as nat);
            lemma_pow2_unfold(w as nat);
            assert forall|env: Env| #[trigger]
                r.eval(env) == sadds_val(self.eval(env), other.eval(env), self.wid()) by {
                lemma_eval_in_range(*self, env);
                lemma_eval_in_range(*other, env);
                let x = self.eval(env);
                let y = other.eval(env);
                let half = pow2((w - 1) as nat);
                assert(is_negative.eval(env) == slice_val(x, (w - 1) as nat, (w - 1) as nat));
                assert(slice_val(x, (w - 1) as nat, (w - 1) as nat) == (x / half) % pow2(1));
                lemma2_to64();
                assert(pow2(1) == 2);
                assert(slice_val(x, (w - 1) as nat, (w - 1) as nat) == (x / half) % 2);
                if x >= half {
                    lemma_div_is_ordered(half as int, x as int, half as int);
                    lemma_div_by_self(half as int);
                    lemma_multiply_divide_lt(x as int, half as int, 2);
                    assert(x / half == 1);
                    assert(slice_val(x, (w - 1) as nat, (w - 1) as nat) == 1);
                } else {
                    lemma_basic_div(x as int, half as int);
                    assert(x / half == 0);
                    assert(slice_val(x, (w - 1) as nat, (w - 1) as nat) == 0);
                }
                if signed_overflows(to_signed(x, w as nat) + to_signed(y, w as nat), w as nat) {
                    assert(overflow.eval(env) == 1);
                } else {
                    assert(overflow.eval(env) == 0);
                }
            }
        }
        r
    }
}

} // verus!
