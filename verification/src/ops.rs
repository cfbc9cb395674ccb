//! Executable construction of expressions.
//!
//! Every operation of the algebra lives here: the factory methods of
//! [`Context`] and the methods of [`Expr`].  Operations on constant
//! operands are folded to constants at construction, so that
//! [`Expr::get_constant`] can answer without consulting a solver; the
//! folding is verified against the semantics in [`crate::expr`].

use vstd::prelude::*;
use vstd::arithmetic::power2::{pow2, lemma_pow2_adds, lemma_pow2_pos, lemma2_to64, lemma2_to64_rest, lemma_pow2_unfold};
use vstd::arithmetic::div_mod::{lemma_small_mod, lemma_mod_add_multiples_vanish, lemma_mod_multiples_basic, lemma_basic_div, lemma_div_denominator, lemma_fundamental_div_mod};
use vstd::string::StringExecFns;
use vstd::arithmetic::mul::lemma_mul_is_associative;

use crate::expr::{BinOp, Env, Expr, binval, bits_and, bits_or, bits_xor, concat_val, denote, not_val, sign_ext_val, signed_overflows, slice_val, to_signed};
use crate::semantics::{lemma_pow2_le, lemma_eval_in_range, lemma_denote_in_range, lemma_concat_bound};

verus! {

/// `2^w` computed at run time, for `w <= 64`.
pub fn pow2_u128(w: u32) -> (r: u128)
    requires
        w <= 64,
    ensures
        r as nat == pow2(w as nat),
{
    let mut r: u128 = 1;
    let mut i: u32 = 0;
    proof {
        lemma2_to64();
    }
    while i < w
        invariant
            i <= w <= 64,
            r as nat == pow2(i as nat),
        decreases w - i,
    {
        proof {
            lemma_pow2_unfold((i + 1) as nat);
            lemma_pow2_le(i as nat, 64);
            lemma2_to64();
        }
        r = r * 2;
        i = i + 1;
    }
    r
}

/// `2^w` as a `u64`, for `w <= 63`.
pub fn pow2_u64(w: u32) -> (r: u64)
    requires
        w <= 63,
    ensures
        r as nat == pow2(w as nat),
{
    proof {
        lemma_pow2_le(w as nat, 63);
        lemma2_to64();
        lemma2_to64_rest();
    }
    pow2_u128(w) as u64
}

/// `2^w - 1`, the all-ones value of width `w`, for `1 <= w <= 64`.
pub fn mask_u64(w: u32) -> (r: u64)
    requires
        1 <= w <= 64,
    ensures
        r as nat == pow2(w as nat) - 1,
{
    proof {
        lemma_pow2_le(w as nat, 64);
        lemma2_to64();
        lemma_pow2_pos(w as nat);
    }
    (pow2_u128(w) - 1) as u64
}

impl Clone for Expr {
    /// An expression copy is equal to the original.
    fn clone(&self) -> (r: Self)
        ensures
            r == *self,
        decreases self,
    {
        match self {
            Expr::Const { w, v } => Expr::Const { w: *w, v: *v },
            Expr::Sym { w, name } => Expr::Sym { w: *w, name: name.clone() },
            Expr::Not { e } => Expr::Not { e: Box::new((**e).clone()) },
            Expr::Binop { op, a, b } => Expr::Binop {
                op: *op,
                a: Box::new((**a).clone()),
                b: Box::new((**b).clone()),
            },
            Expr::Ite { c, t, e } => Expr::Ite {
                c: Box::new((**c).clone()),
                t: Box::new((**t).clone()),
                e: Box::new((**e).clone()),
            },
            Expr::Slice { lo, hi, e } => Expr::Slice {
                lo: *lo,
                hi: *hi,
                e: Box::new((**e).clone()),
            },
            Expr::Concat { hi_e, lo_e } => Expr::Concat {
                hi_e: Box::new((**hi_e).clone()),
                lo_e: Box::new((**lo_e).clone()),
            },
            Expr::ZeroExt { w, e } => Expr::ZeroExt { w: *w, e: Box::new((**e).clone()) },
            Expr::SignExt { w, e } => Expr::SignExt { w: *w, e: Box::new((**e).clone()) },
        }
    }
}

impl Expr {
    /// The bit width of the expression.
    pub fn len(&self) -> (r: u32)
        requires
            self.wf(),
        ensures
            r as nat == self.wid(),
            r >= 1,
        decreases self,
    {
        proof {
            lemma_wf_wid_pos(*self);
        }
        match self {
            Expr::Const { w, .. } => *w,
            Expr::Sym { w, .. } => *w,
            Expr::Not { e } => e.len(),
            Expr::Binop { op, a, .. } => {
                let wa = a.len();
                if op.is_predicate_exec() {
                    1
                } else {
                    wa
                }
            },
            Expr::Ite { t, .. } => t.len(),
            Expr::Slice { lo, hi, .. } => *hi - *lo + 1,
            Expr::Concat { hi_e, lo_e } => hi_e.len() + lo_e.len(),
            Expr::ZeroExt { w, .. } => *w,
            Expr::SignExt { w, .. } => *w,
        }
    }
}

impl BinOp {
    /// Run-time counterpart of [`BinOp::is_predicate`].
    pub fn is_predicate_exec(&self) -> (r: bool)
        ensures
            r == self.is_predicate(),
    {
        match self {
            BinOp::Eq | BinOp::Ne | BinOp::Ult | BinOp::Ule | BinOp::Ugt | BinOp::Uge
            | BinOp::Slt | BinOp::Sle | BinOp::Sgt | BinOp::Sge | BinOp::Uaddo | BinOp::Saddo
            | BinOp::Usubo | BinOp::Ssubo | BinOp::Umulo | BinOp::Smulo => true,
            _ => false,
        }
    }
}

/// The bitwise operation selected by `op`, for the three bitwise
/// binary operations; zero for every other operation.
pub open spec fn bits_op(op: BinOp, x: nat, y: nat, w: nat) -> nat {
    match op {
        BinOp::And => bits_and(x, y, w),
        BinOp::Or => bits_or(x, y, w),
        BinOp::Xor => bits_xor(x, y, w),
        _ => 0nat,
    }
}

/// One bit of a bitwise operation.
pub open spec fn bit_op1(op: BinOp, xb: nat, yb: nat) -> nat {
    match op {
        BinOp::And => if xb == 1 && yb == 1 {
            1nat
        } else {
            0nat
        },
        BinOp::Or => if xb == 1 || yb == 1 {
            1nat
        } else {
            0nat
        },
        BinOp::Xor => if xb != yb {
            1nat
        } else {
            0nat
        },
        _ => 0nat,
    }
}

/// Unfolding of [`bits_op`] one bit at a time.
proof fn lemma_bits_op_unfold(op: BinOp, x: nat, y: nat, w: nat)
    requires
        w >= 1,
        op == BinOp::And || op == BinOp::Or || op == BinOp::Xor,
    ensures
        bits_op(op, x, y, w) == bit_op1(op, x % 2, y % 2) + 2 * bits_op(
            op,
            x / 2,
            y / 2,
            (w - 1) as nat,
        ),
{
}

/// The bound carried by [`bits_op`].
proof fn lemma_bits_op_bound(op: BinOp, x: nat, y: nat, w: nat)
    ensures
        bits_op(op, x, y, w) < pow2(w),
{
    crate::semantics::lemma_bits_and_bound(x, y, w);
    crate::semantics::lemma_bits_or_bound(x, y, w);
    crate::semantics::lemma_bits_xor_bound(x, y, w);
    lemma_pow2_pos(w);
}

/// Computes a bitwise and, or, or exclusive or over the low `w` bits.
fn fold_bitwise(op: BinOp, x: u64, y: u64, w: u32) -> (r: u64)
    requires
        1 <= w <= 64,
        op == BinOp::And || op == BinOp::Or || op == BinOp::Xor,
    ensures
        r as nat == bits_op(op, x as nat, y as nat, w as nat),
{
    let mut acc: u128 = 0;
    let mut p: u128 = 1;
    let mut cx: u64 = x;
    let mut cy: u64 = y;
    let mut i: u32 = 0;
    proof {
        lemma_bits_op_bound(op, x as nat, y as nat, w as nat);
        lemma_pow2_le(w as nat, 64);
        lemma2_to64();
    }
    while i < w
        invariant
            i <= w <= 64,
            op == BinOp::And || op == BinOp::Or || op == BinOp::Xor,
            p as nat == pow2(i as nat),
            acc < p,
            acc as nat + p as nat * bits_op(op, cx as nat, cy as nat, (w - i) as nat) == bits_op(
                op,
                x as nat,
                y as nat,
                w as nat,
            ),
            bits_op(op, x as nat, y as nat, w as nat) < pow2(w as nat),
            pow2(w as nat) <= pow2(64),
            pow2(64) == 0x10000000000000000,
        decreases w - i,
    {
        let bit: u128 = match op {
            BinOp::And => if cx % 2 == 1 && cy % 2 == 1 {
                1
            } else {
                0
            },
            BinOp::Or => if cx % 2 == 1 || cy % 2 == 1 {
                1
            } else {
                0
            },
            _ => if cx % 2 != cy % 2 {
                1
            } else {
                0
            },
        };
        proof {
            lemma_bits_op_unfold(op, cx as nat, cy as nat, (w - i) as nat);
            lemma_pow2_unfold((i + 1) as nat);
            lemma_pow2_le((i + 1) as nat, 64);
            let rest = bits_op(op, (cx / 2) as nat, (cy / 2) as nat, (w - i - 1) as nat);
            assert(p as nat * (bit as nat + 2 * rest) == p as nat * bit as nat + (2 * p as nat)
                * rest) by (nonlinear_arith);
        }
        acc = acc + bit * p;
        p = p * 2;
        cx = cx / 2;
        cy = cy / 2;
        i = i + 1;
    }
    proof {
        assert(i == w);
        let rest = bits_op(op, cx as nat, cy as nat, (w - i) as nat);
        assert(acc as nat + p as nat * rest == bits_op(op, x as nat, y as nat, w as nat));
        assert((w - i) as nat == 0nat);
        assert(rest == 0);
        assert(p as nat * rest == 0) by (nonlinear_arith)
            requires
                rest == 0,
        ;
        assert(acc as nat == bits_op(op, x as nat, y as nat, w as nat));
        assert(acc <= 0xFFFFFFFFFFFFFFFF);
    }
    acc as u64
}

/// The signed reading of a `w`-bit value, computed at run time.
fn signed_of(v: u64, w: u32) -> (r: i128)
    requires
        1 <= w <= 64,
        (v as nat) < pow2(w as nat),
    ensures
        r as int == to_signed(v as nat, w as nat),
        -pow2((w - 1) as nat) <= r as int,
        (r as int) < pow2((w - 1) as nat),
{
    let half = pow2_u128(w - 1);
    proof {
        lemma_pow2_unfold(w as nat);
        lemma_pow2_le(w as nat, 64);
        lemma2_to64();
    }
    if (v as u128) >= half {
        v as i128 - pow2_u128(w) as i128
    } else {
        v as i128
    }
}

/// Whether a signed intermediate result overflows width `w`, computed
/// at run time.
fn signed_overflow_check(s: i128, w: u32) -> (r: bool)
    requires
        1 <= w <= 64,
        -0x40000000000000000000000000000000 <= s as int,
        s as int <= 0x40000000000000000000000000000000,
    ensures
        r == signed_overflows(s as int, w as nat),
{
    let half = pow2_u128(w - 1) as i128;
    proof {
        lemma_pow2_le((w - 1) as nat, 63);
        lemma2_to64();
        lemma2_to64_rest();
    }
    s < -half || s > half - 1
}

/// Folds a binary operation over two constant operand values of width
/// `w`.  Returns `None` for the few operations that are not folded;
/// a returned value equals the operation's denotation.
pub(crate) fn fold_binop(op: BinOp, x: u64, y: u64, w: u32) -> (r: Option<u64>)
    requires
        1 <= w <= 64,
        (x as nat) < pow2(w as nat),
        (y as nat) < pow2(w as nat),
    ensures
        r matches Some(v) ==> v as nat == denote(op, x as nat, y as nat, w as nat),
        !(op is Sdiv) && !(op is Srem) && !(op is Ashr) ==> r is Some,
{
    proof {
        lemma_pow2_pos(w as nat);
        lemma_pow2_le(w as nat, 64);
        lemma2_to64();
    }
    match op {
        BinOp::Add => {
            let p = pow2_u128(w);
            Some(((x as u128 + y as u128) % p) as u64)
        },
        BinOp::Sub => {
            if x >= y {
                proof {
                    lemma_small_mod((x - y) as nat, pow2(w as nat));
                }
                Some(x - y)
            } else {
                let p = pow2_u128(w);
                let r = ((x as u128 + p) - y as u128) as u64;
                proof {
                    lemma_mod_add_multiples_vanish(x as int - y as int, pow2(w as nat) as int);
                    lemma_small_mod((x + pow2(w as nat) - y) as nat, pow2(w as nat));
                }
                Some(r)
            }
        },
        BinOp::Mul => {
            let p = pow2_u128(w);
            proof {
                assert((x as u128) * (y as u128) <= 0xFFFFFFFFFFFFFFFF * 0xFFFFFFFFFFFFFFFF)
                    by (nonlinear_arith)
                    requires
                        x <= 0xFFFFFFFFFFFFFFFFu64,
                        y <= 0xFFFFFFFFFFFFFFFFu64,
                ;
            }
            Some(((x as u128 * y as u128) % p) as u64)
        },
        BinOp::Udiv => {
            if y == 0 {
                Some(mask_u64(w))
            } else {
                Some(x / y)
            }
        },
        BinOp::Urem => {
            if y == 0 {
                Some(x)
            } else {
                Some(x % y)
            }
        },
        BinOp::And | BinOp::Or | BinOp::Xor => Some(fold_bitwise(op, x, y, w)),
        BinOp::Shl => {
            if y >= w as u64 {
                proof {
                    lemma_pow2_adds(w as nat, (y - w) as nat);
                    lemma_mul_is_associative(
                        x as int,
                        pow2((y - w) as nat) as int,
                        pow2(w as nat) as int,
                    );
                    assert(x as nat * (pow2((y - w) as nat) * pow2(w as nat)) == (x as nat * pow2(
                        (y - w) as nat,
                    )) * pow2(w as nat)) by (nonlinear_arith);
                    lemma_mod_multiples_basic(
                        (x as nat * pow2((y - w) as nat)) as int,
                        pow2(w as nat) as int,
                    );
                }
                Some(0)
            } else {
                let p = pow2_u128(w);
                let f = pow2_u128(y as u32);
                proof {
                    lemma_pow2_le(y as nat, 63);
                    lemma2_to64_rest();
                    assert((x as u128) * (f as u128) <= 0xFFFFFFFFFFFFFFFF
                        * 0x8000000000000000) by (nonlinear_arith)
                        requires
                            x <= 0xFFFFFFFFFFFFFFFFu64,
                            f <= 0x8000000000000000u128,
                    ;
                }
                Some(((x as u128 * f) % p) as u64)
            }
        },
        BinOp::Lshr => {
            if y >= w as u64 {
                proof {
                    lemma_pow2_le(w as nat, y as nat);
                    lemma_basic_div(x as int, pow2(y as nat) as int);
                }
                Some(0)
            } else {
                let f = pow2_u64(y as u32);
                proof {
                    lemma_pow2_pos(y as nat);
                }
                Some(x / f)
            }
        },
        BinOp::Eq => Some(if x == y { 1 } else { 0 }),
        BinOp::Ne => Some(if x != y { 1 } else { 0 }),
        BinOp::Ult => Some(if x < y { 1 } else { 0 }),
        BinOp::Ule => Some(if x <= y { 1 } else { 0 }),
        BinOp::Ugt => Some(if x > y { 1 } else { 0 }),
        BinOp::Uge => Some(if x >= y { 1 } else { 0 }),
        BinOp::Slt => {
            let (a, b) = (signed_of(x, w), signed_of(y, w));
            Some(if a < b { 1 } else { 0 })
        },
        BinOp::Sle => {
            let (a, b) = (signed_of(x, w), signed_of(y, w));
            Some(if a <= b { 1 } else { 0 })
        },
        BinOp::Sgt => {
            let (a, b) = (signed_of(x, w), signed_of(y, w));
            Some(if a > b { 1 } else { 0 })
        },
        BinOp::Sge => {
            let (a, b) = (signed_of(x, w), signed_of(y, w));
            Some(if a >= b { 1 } else { 0 })
        },
        BinOp::Uaddo => {
            let p = pow2_u128(w);
            Some(if x as u128 + y as u128 >= p { 1 } else { 0 })
        },
        BinOp::Usubo => Some(if x < y { 1 } else { 0 }),
        BinOp::Umulo => {
            let p = pow2_u128(w);
            proof {
                assert((x as u128) * (y as u128) <= 0xFFFFFFFFFFFFFFFF * 0xFFFFFFFFFFFFFFFF)
                    by (nonlinear_arith)
                    requires
                        x <= 0xFFFFFFFFFFFFFFFFu64,
                        y <= 0xFFFFFFFFFFFFFFFFu64,
                ;
            }
            Some(if x as u128 * y as u128 >= p { 1 } else { 0 })
        },
        BinOp::Saddo => {
            let s = signed_of(x, w) + signed_of(y, w);
            proof {
                lemma_pow2_le((w - 1) as nat, 63);
                lemma2_to64_rest();
            }
            Some(if signed_overflow_check(s, w) { 1 } else { 0 })
        },
        BinOp::Ssubo => {
            let s = signed_of(x, w) - signed_of(y, w);
            proof {
                lemma_pow2_le((w - 1) as nat, 63);
                lemma2_to64_rest();
            }
            Some(if signed_overflow_check(s, w) { 1 } else { 0 })
        },
        BinOp::Smulo => {
            let a = signed_of(x, w);
            let b = signed_of(y, w);
            proof {
                lemma_pow2_le((w - 1) as nat, 63);
                lemma2_to64_rest();
                assert((-0x40000000000000000000000000000000 <= (a as int) * (b as int)) && ((
                a as int) * (b as int) <= 0x40000000000000000000000000000000)) by (nonlinear_arith)
                    requires
                        -0x8000000000000000 <= a as int && a as int <= 0x8000000000000000,
                        -0x8000000000000000 <= b as int && b as int <= 0x8000000000000000,
                ;
            }
            let s = a * b;
            Some(if signed_overflow_check(s, w) { 1 } else { 0 })
        },
        BinOp::Sdiv | BinOp::Srem | BinOp::Ashr => None,
    }
}

/// The value of an expression that is a constant node, and `None` for
/// every other expression.  [`Expr::get_constant`] returns exactly this.
pub open spec fn spec_constant(e: Expr) -> Option<u64> {
    match e {
        Expr::Const { v, .. } => Some(v),
        _ => None,
    }
}

/// Builds a binary operation node, folding constant operands.
fn binop(op: BinOp, a: Expr, b: Expr) -> (r: Expr)
    requires
        a.wf(),
        b.wf(),
        a.wid() == b.wid(),
    ensures
        r.wf(),
        r.wid() == if op.is_predicate() {
            1nat
        } else {
            a.wid()
        },
        forall|env: Env| #[trigger]
            r.eval(env) == denote(op, a.eval(env), b.eval(env), a.wid()),
        a is Const && b is Const && !(op is Sdiv) && !(op is Srem) && !(op is Ashr) ==> r is Const,
{
    let w = a.len();
    let folded: Option<u64> = if w <= 64 {
        match (&a, &b) {
            (Expr::Const { v: va, .. }, Expr::Const { v: vb, .. }) => fold_binop(op, *va, *vb, w),
            _ => None,
        }
    } else {
        None
    };
    match folded {
        Some(v) => {
            let rw = if op.is_predicate_exec() {
                1
            } else {
                w
            };
            proof {
                let va = a->v;
                let vb = b->v;
                lemma_denote_in_range(op, va as nat, vb as nat, w as nat);
                lemma2_to64();
            }
            Expr::Const { w: rw, v }
        },
        None => Expr::Binop { op, a: Box::new(a), b: Box::new(b) },
    }
}

impl Expr {
    /// Wrapping addition; the operands must have equal widths.
    pub fn add(&self, other: &Expr) -> (r: Expr)
        requires
            self.wf(),
            other.wf(),
            self.wid() == other.wid(),
        ensures
            r.wf(),
            r.wid() == self.wid(),
            forall|env: Env| #[trigger]
                r.eval(env) == denote(BinOp::Add, self.eval(env), other.eval(env), self.wid()),
            *self is Const && *other is Const ==> r is Const,
    {
        binop(BinOp::Add, self.clone(), other.clone())
    }

    /// Wrapping subtraction; the operands must have equal widths.
    pub fn sub(&self, other: &Expr) -> (r: Expr)
        requires
            self.wf(),
            other.wf(),
            self.wid() == other.wid(),
        ensures
            r.wf(),
            r.wid() == self.wid(),
            forall|env: Env| #[trigger]
                r.eval(env) == denote(BinOp::Sub, self.eval(env), other.eval(env), self.wid()),
    {
        binop(BinOp::Sub, self.clone(), other.clone())
    }

    /// Wrapping multiplication; the operands must have equal widths.
    pub fn mul(&self, other: &Expr) -> (r: Expr)
        requires
            self.wf(),
            other.wf(),
            self.wid() == other.wid(),
        ensures
            r.wf(),
            r.wid() == self.wid(),
            forall|env: Env| #[trigger]
                r.eval(env) == denote(BinOp::Mul, self.eval(env), other.eval(env), self.wid()),
    {
        binop(BinOp::Mul, self.clone(), other.clone())
    }

    /// Unsigned division; division by zero yields the all-ones value.
    pub fn udiv(&self, other: &Expr) -> (r: Expr)
        requires
            self.wf(),
            other.wf(),
            self.wid() == other.wid(),
        ensures
            r.wf(),
            r.wid() == self.wid(),
            forall|env: Env| #[trigger]
                r.eval(env) == denote(BinOp::Udiv, self.eval(env), other.eval(env), self.wid()),
    {
        binop(BinOp::Udiv, self.clone(), other.clone())
    }

    /// Signed division, truncating toward zero.
    pub fn sdiv(&self, other: &Expr) -> (r: Expr)
        requires
            self.wf(),
            other.wf(),
            self.wid() == other.wid(),
        ensures
            r.wf(),
            r.wid() == self.wid(),
            forall|env: Env| #[trigger]
                r.eval(env) == denote(BinOp::Sdiv, self.eval(env), other.eval(env), self.wid()),
    {
        binop(BinOp::Sdiv, self.clone(), other.clone())
    }

    /// Unsigned remainder; a zero divisor yields the dividend.
    pub fn urem(&self, other: &Expr) -> (r: Expr)
        requires
            self.wf(),
            other.wf(),
            self.wid() == other.wid(),
        ensures
            r.wf(),
            r.wid() == self.wid(),
            forall|env: Env| #[trigger]
                r.eval(env) == denote(BinOp::Urem, self.eval(env), other.eval(env), self.wid()),
    {
        binop(BinOp::Urem, self.clone(), other.clone())
    }

    /// Signed remainder, with the sign of the dividend.
    pub fn srem(&self, other: &Expr) -> (r: Expr)
        requires
            self.wf(),
            other.wf(),
            self.wid() == other.wid(),
        ensures
            r.wf(),
            r.wid() == self.wid(),
            forall|env: Env| #[trigger]
                r.eval(env) == denote(BinOp::Srem, self.eval(env), other.eval(env), self.wid()),
    {
        binop(BinOp::Srem, self.clone(), other.clone())
    }

    /// Bitwise and; the operands must have equal widths.
    pub fn and(&self, other: &Expr) -> (r: Expr)
        requires
            self.wf(),
            other.wf(),
            self.wid() == other.wid(),
        ensures
            r.wf(),
            r.wid() == self.wid(),
            forall|env: Env| #[trigger]
                r.eval(env) == denote(BinOp::And, self.eval(env), other.eval(env), self.wid()),
    {
        binop(BinOp::And, self.clone(), other.clone())
    }

    /// Bitwise or; the operands must have equal widths.
    pub fn or(&self, other: &Expr) -> (r: Expr)
        requires
            self.wf(),
            other.wf(),
            self.wid() == other.wid(),
        ensures
            r.wf(),
            r.wid() == self.wid(),
            forall|env: Env| #[trigger]
                r.eval(env) == denote(BinOp::Or, self.eval(env), other.eval(env), self.wid()),
    {
        binop(BinOp::Or, self.clone(), other.clone())
    }

    /// Bitwise exclusive or; the operands must have equal widths.
    pub fn xor(&self, other: &Expr) -> (r: Expr)
        requires
            self.wf(),
            other.wf(),
            self.wid() == other.wid(),
        ensures
            r.wf(),
            r.wid() == self.wid(),
            forall|env: Env| #[trigger]
                r.eval(env) == denote(BinOp::Xor, self.eval(env), other.eval(env), self.wid()),
    {
        binop(BinOp::Xor, self.clone(), other.clone())
    }

    /// Logical shift left by the value of `other`.
    pub fn sll(&self, other: &Expr) -> (r: Expr)
        requires
            self.wf(),
            other.wf(),
            self.wid() == other.wid(),
        ensures
            r.wf(),
            r.wid() == self.wid(),
            forall|env: Env| #[trigger]
                r.eval(env) == denote(BinOp::Shl, self.eval(env), other.eval(env), self.wid()),
    {
        binop(BinOp::Shl, self.clone(), other.clone())
    }

    /// Logical shift right by the value of `other`.
    pub fn srl(&self, other: &Expr) -> (r: Expr)
        requires
            self.wf(),
            other.wf(),
            self.wid() == other.wid(),
        ensures
            r.wf(),
            r.wid() == self.wid(),
            forall|env: Env| #[trigger]
                r.eval(env) == denote(BinOp::Lshr, self.eval(env), other.eval(env), self.wid()),
    {
        binop(BinOp::Lshr, self.clone(), other.clone())
    }

    /// Arithmetic shift right by the value of `other`.
    pub fn sra(&self, other: &Expr) -> (r: Expr)
        requires
            self.wf(),
            other.wf(),
            self.wid() == other.wid(),
        ensures
            r.wf(),
            r.wid() == self.wid(),
            forall|env: Env| #[trigger]
                r.eval(env) == denote(BinOp::Ashr, self.eval(env), other.eval(env), self.wid()),
    {
        binop(BinOp::Ashr, self.clone(), other.clone())
    }

    /// Equality as a width-1 bitvector.
    pub fn _eq(&self, other: &Expr) -> (r: Expr)
        requires
            self.wf(),
            other.wf(),
            self.wid() == other.wid(),
        ensures
            r.wf(),
            r.wid() == 1,
            forall|env: Env| #[trigger]
                r.eval(env) == denote(BinOp::Eq, self.eval(env), other.eval(env), self.wid()),
            *self is Const && *other is Const ==> r is Const,
    {
        binop(BinOp::Eq, self.clone(), other.clone())
    }

    /// Inequality as a width-1 bitvector.
    pub fn _ne(&self, other: &Expr) -> (r: Expr)
        requires
            self.wf(),
            other.wf(),
            self.wid() == other.wid(),
        ensures
            r.wf(),
            r.wid() == 1,
            forall|env: Env| #[trigger]
                r.eval(env) == denote(BinOp::Ne, self.eval(env), other.eval(env), self.wid()),
            *self is Const && *other is Const ==> r is Const,
    {
        binop(BinOp::Ne, self.clone(), other.clone())
    }

    /// Unsigned less than, width 1.
    pub fn ult(&self, other: &Expr) -> (r: Expr)
        requires
            self.wf(),
            other.wf(),
            self.wid() == other.wid(),
        ensures
            r.wf(),
            r.wid() == 1,
            forall|env: Env| #[trigger]
                r.eval(env) == denote(BinOp::Ult, self.eval(env), other.eval(env), self.wid()),
    {
        binop(BinOp::Ult, self.clone(), other.clone())
    }

    /// Unsigned less than or equal, width 1.
    pub fn ulte(&self, other: &Expr) -> (r: Expr)
        requires
            self.wf(),
            other.wf(),
            self.wid() == other.wid(),
        ensures
            r.wf(),
            r.wid() == 1,
            forall|env: Env| #[trigger]
                r.eval(env) == denote(BinOp::Ule, self.eval(env), other.eval(env), self.wid()),
    {
        binop(BinOp::Ule, self.clone(), other.clone())
    }

    /// Unsigned greater than, width 1.
    pub fn ugt(&self, other: &Expr) -> (r: Expr)
        requires
            self.wf(),
            other.wf(),
            self.wid() == other.wid(),
        ensures
            r.wf(),
            r.wid() == 1,
            forall|env: Env| #[trigger]
                r.eval(env) == denote(BinOp::Ugt, self.eval(env), other.eval(env), self.wid()),
    {
        binop(BinOp::Ugt, self.clone(), other.clone())
    }

    /// Unsigned greater than or equal, width 1.
    pub fn ugte(&self, other: &Expr) -> (r: Expr)
        requires
            self.wf(),
            other.wf(),
            self.wid() == other.wid(),
        ensures
            r.wf(),
            r.wid() == 1,
            forall|env: Env| #[trigger]
                r.eval(env) == denote(BinOp::Uge, self.eval(env), other.eval(env), self.wid()),
    {
        binop(BinOp::Uge, self.clone(), other.clone())
    }

    /// Signed less than, width 1.
    pub fn slt(&self, other: &Expr) -> (r: Expr)
        requires
            self.wf(),
            other.wf(),
            self.wid() == other.wid(),
        ensures
            r.wf(),
            r.wid() == 1,
            forall|env: Env| #[trigger]
                r.eval(env) == denote(BinOp::Slt, self.eval(env), other.eval(env), self.wid()),
    {
        binop(BinOp::Slt, self.clone(), other.clone())
    }

    /// Signed less than or equal, width 1.
    pub fn slte(&self, other: &Expr) -> (r: Expr)
        requires
            self.wf(),
            other.wf(),
            self.wid() == other.wid(),
        ensures
            r.wf(),
            r.wid() == 1,
            forall|env: Env| #[trigger]
                r.eval(env) == denote(BinOp::Sle, self.eval(env), other.eval(env), self.wid()),
    {
        binop(BinOp::Sle, self.clone(), other.clone())
    }

    /// Signed greater than, width 1.
    pub fn sgt(&self, other: &Expr) -> (r: Expr)
        requires
            self.wf(),
            other.wf(),
            self.wid() == other.wid(),
        ensures
            r.wf(),
            r.wid() == 1,
            forall|env: Env| #[trigger]
                r.eval(env) == denote(BinOp::Sgt, self.eval(env), other.eval(env), self.wid()),
    {
        binop(BinOp::Sgt, self.clone(), other.clone())
    }

    /// Signed greater than or equal, width 1.
    pub fn sgte(&self, other: &Expr) -> (r: Expr)
        requires
            self.wf(),
            other.wf(),
            self.wid() == other.wid(),
        ensures
            r.wf(),
            r.wid() == 1,
            forall|env: Env| #[trigger]
                r.eval(env) == denote(BinOp::Sge, self.eval(env), other.eval(env), self.wid()),
    {
        binop(BinOp::Sge, self.clone(), other.clone())
    }

    /// Unsigned addition overflow predicate, width 1.
    pub fn uaddo(&self, other: &Expr) -> (r: Expr)
        requires
            self.wf(),
            other.wf(),
            self.wid() == other.wid(),
        ensures
            r.wf(),
            r.wid() == 1,
            forall|env: Env| #[trigger]
                r.eval(env) == denote(BinOp::Uaddo, self.eval(env), other.eval(env), self.wid()),
            *self is Const && *other is Const ==> r is Const,
    {
        binop(BinOp::Uaddo, self.clone(), other.clone())
    }

    /// Signed addition overflow predicate, width 1.
    pub fn saddo(&self, other: &Expr) -> (r: Expr)
        requires
            self.wf(),
            other.wf(),
            self.wid() == other.wid(),
        ensures
            r.wf(),
            r.wid() == 1,
            forall|env: Env| #[trigger]
                r.eval(env) == denote(BinOp::Saddo, self.eval(env), other.eval(env), self.wid()),
            *self is Const && *other is Const ==> r is Const,
    {
        binop(BinOp::Saddo, self.clone(), other.clone())
    }

    /// Unsigned subtraction overflow predicate, width 1.
    pub fn usubo(&self, other: &Expr) -> (r: Expr)
        requires
            self.wf(),
            other.wf(),
            self.wid() == other.wid(),
        ensures
            r.wf(),
            r.wid() == 1,
            forall|env: Env| #[trigger]
                r.eval(env) == denote(BinOp::Usubo, self.eval(env), other.eval(env), self.wid()),
    {
        binop(BinOp::Usubo, self.clone(), other.clone())
    }

    /// Signed subtraction overflow predicate, width 1.
    pub fn ssubo(&self, other: &Expr) -> (r: Expr)
        requires
            self.wf(),
            other.wf(),
            self.wid() == other.wid(),
        ensures
            r.wf(),
            r.wid() == 1,
            forall|env: Env| #[trigger]
                r.eval(env) == denote(BinOp::Ssubo, self.eval(env), other.eval(env), self.wid()),
    {
        binop(BinOp::Ssubo, self.clone(), other.clone())
    }

    /// Unsigned multiplication overflow predicate, width 1.
    pub fn umulo(&self, other: &Expr) -> (r: Expr)
        requires
            self.wf(),
            other.wf(),
            self.wid() == other.wid(),
        ensures
            r.wf(),
            r.wid() == 1,
            forall|env: Env| #[trigger]
                r.eval(env) == denote(BinOp::Umulo, self.eval(env), other.eval(env), self.wid()),
    {
        binop(BinOp::Umulo, self.clone(), other.clone())
    }

    /// Signed multiplication overflow predicate, width 1.
    pub fn smulo(&self, other: &Expr) -> (r: Expr)
        requires
            self.wf(),
            other.wf(),
            self.wid() == other.wid(),
        ensures
            r.wf(),
            r.wid() == 1,
            forall|env: Env| #[trigger]
                r.eval(env) == denote(BinOp::Smulo, self.eval(env), other.eval(env), self.wid()),
    {
        binop(BinOp::Smulo, self.clone(), other.clone())
    }
}

impl Expr {
    /// Bitwise complement.
    pub fn not(&self) -> (r: Expr)
        requires
            self.wf(),
        ensures
            r.wf(),
            r.wid() == self.wid(),
            forall|env: Env| #[trigger] r.eval(env) == not_val(self.eval(env), self.wid()),
            *self is Const ==> r is Const,
    {
        match self {
            Expr::Const { w, v } => {
                let m = mask_u64(*w);
                proof {
                    lemma_small_mod(*v as nat, pow2(*w as nat));
                }
                Expr::Const { w: *w, v: m - *v }
            },
            _ => Expr::Not { e: Box::new(self.clone()) },
        }
    }

    /// `if self { then_e } else { else_e }`; `self` must have width 1.
    pub fn ite(&self, then_e: &Expr, else_e: &Expr) -> (r: Expr)
        requires
            self.wf(),
            self.wid() == 1,
            then_e.wf(),
            else_e.wf(),
            then_e.wid() == else_e.wid(),
        ensures
            r.wf(),
            r.wid() == then_e.wid(),
            forall|env: Env| #[trigger]
                r.eval(env) == if self.eval(env) == 1 {
                    then_e.eval(env)
                } else {
                    else_e.eval(env)
                },
            *self is Const ==> r == if self->v == 1 {
                *then_e
            } else {
                *else_e
            },
    {
        match self {
            Expr::Const { v, .. } => {
                proof {
                    lemma2_to64();
                }
                if *v == 1 {
                    then_e.clone()
                } else {
                    else_e.clone()
                }
            },
            _ => Expr::Ite {
                c: Box::new(self.clone()),
                t: Box::new(then_e.clone()),
                e: Box::new(else_e.clone()),
            },
        }
    }

    /// Bits `low ..= high` of the expression.
    pub fn slice(&self, low: u32, high: u32) -> (r: Expr)
        requires
            self.wf(),
            low <= high,
            (high as nat) < self.wid(),
        ensures
            r.wf(),
            r.wid() == high - low + 1,
            forall|env: Env| #[trigger]
                r.eval(env) == slice_val(self.eval(env), low as nat, high as nat),
            *self is Const ==> r is Const,
            low == 0 && high as nat == self.wid() - 1 ==> r == *self,
    {
        let w = self.len();
        if low == 0 && high == w - 1 {
            proof {
                lemma2_to64();
                assert forall|env: Env|
                    slice_val(self.eval(env), low as nat, high as nat) == self.eval(env) by {
                    lemma_eval_in_range(*self, env);
                    lemma_small_mod(self.eval(env), pow2(w as nat));
                }
            }
            self.clone()
        } else {
            match self {
                Expr::Const { w: cw, v } => {
                    let len = high - low + 1;
                    proof {
                        lemma_pow2_pos(low as nat);
                        lemma_pow2_pos(len as nat);
                    }
                    let q = *v / pow2_u64(low);
                    let res = q % pow2_u64(len);
                    Expr::Const { w: len, v: res }
                },
                _ => Expr::Slice { lo: low, hi: high, e: Box::new(self.clone()) },
            }
        }
    }

    /// Concatenation; `self` supplies the high bits.
    pub fn concat(&self, other: &Expr) -> (r: Expr)
        requires
            self.wf(),
            other.wf(),
            self.wid() + other.wid() <= u32::MAX,
        ensures
            r.wf(),
            r.wid() == self.wid() + other.wid(),
            forall|env: Env| #[trigger]
                r.eval(env) == concat_val(self.eval(env), other.eval(env), other.wid()),
            *self is Const && *other is Const && self.wid() + other.wid() <= 64 ==> r is Const,
    {
        let wa = self.len();
        let wb = other.len();
        if wa as u64 + wb as u64 <= 64 {
            match (self, other) {
                (Expr::Const { v: va, .. }, Expr::Const { v: vb, .. }) => {
                    let f = pow2_u64(wb);
                    proof {
                        lemma_concat_bound(*va as nat, *vb as nat, wa as nat, wb as nat);
                        lemma_pow2_le((wa + wb) as nat, 64);
                        lemma2_to64();
                        assert((*va as u128) * (f as u128) == (*va as nat) * pow2(wb as nat))
                            by (nonlinear_arith)
                            requires
                                f as nat == pow2(wb as nat),
                        ;
                    }
                    let prod = (*va as u128) * (f as u128);
                    return Expr::Const { w: wa + wb, v: (prod + *vb as u128) as u64 };
                },
                _ => {},
            }
        }
        Expr::Concat { hi_e: Box::new(self.clone()), lo_e: Box::new(other.clone()) }
    }

    /// Zero extension to `width >= self.wid()`; the value is unchanged.
    pub fn zero_ext(&self, width: u32) -> (r: Expr)
        requires
            self.wf(),
            self.wid() <= width,
        ensures
            r.wf(),
            r.wid() == width,
            forall|env: Env| #[trigger] r.eval(env) == self.eval(env),
            width as nat == self.wid() ==> r == *self,
            *self is Const && width <= 64 ==> r is Const,
    {
        let w = self.len();
        if width == w {
            self.clone()
        } else {
            match self {
                Expr::Const { v, .. } => {
                    if width <= 64 {
                        proof {
                            lemma_pow2_le(w as nat, width as nat);
                        }
                        Expr::Const { w: width, v: *v }
                    } else {
                        Expr::ZeroExt { w: width, e: Box::new(self.clone()) }
                    }
                },
                _ => Expr::ZeroExt { w: width, e: Box::new(self.clone()) },
            }
        }
    }

    /// Sign extension to `width >= self.wid()`: the signed reading of
    /// the value is unchanged.
    pub fn sign_ext(&self, width: u32) -> (r: Expr)
        requires
            self.wf(),
            self.wid() <= width,
        ensures
            r.wf(),
            r.wid() == width,
            forall|env: Env| #[trigger]
                r.eval(env) == sign_ext_val(self.eval(env), self.wid(), width as nat),
    {
        let w = self.len();
        if width == w {
            proof {
                assert forall|env: Env|
                    sign_ext_val(self.eval(env), self.wid(), width as nat) == self.eval(env) by {
                    lemma_eval_in_range(*self, env);
                }
            }
            self.clone()
        } else {
            match self {
                Expr::Const { v, .. } => {
                    if width <= 64 {
                        let half = pow2_u64(w - 1);
                        proof {
                            lemma_pow2_le(w as nat, width as nat);
                            lemma_pow2_le((w - 1) as nat, w as nat);
                            lemma_pow2_pos((w - 1) as nat);
                        }
                        if *v >= half {
                            let grown = mask_u64(width) - mask_u64(w);
                            Expr::Const { w: width, v: *v + grown }
                        } else {
                            Expr::Const { w: width, v: *v }
                        }
                    } else {
                        Expr::SignExt { w: width, e: Box::new(self.clone()) }
                    }
                },
                _ => Expr::SignExt { w: width, e: Box::new(self.clone()) },
            }
        }
    }

    /// Zero extension that keeps the unsigned value.  A target width
    /// below the current width is rejected by precondition; truncation
    /// must be requested explicitly through [`Expr::slice`].
    pub fn resize_unsigned(&self, width: u32) -> (r: Expr)
        requires
            self.wf(),
            self.wid() <= width,
        ensures
            r.wf(),
            r.wid() == width,
            forall|env: Env| #[trigger] r.eval(env) == self.eval(env),
    {
        self.zero_ext(width)
    }

    /// The value of a constant expression; `None` when the expression
    /// is not a constant node.
    pub fn get_constant(&self) -> (r: Option<u64>)
        ensures
            r == spec_constant(*self),
            r matches Some(v) ==> forall|env: Env| #[trigger] self.eval(env) == v,
    {
        match self {
            Expr::Const { v, .. } => Some(*v),
            _ => None,
        }
    }

    /// The boolean value of a constant width-1 expression.
    pub fn get_constant_bool(&self) -> (r: Option<bool>)
        requires
            self.wf(),
            self.wid() == 1,
        ensures
            r matches Some(b) ==> forall|env: Env| #[trigger]
                self.eval(env) == if b {
                    1nat
                } else {
                    0nat
                },
            r is Some <==> *self is Const,
    {
        proof {
            lemma2_to64();
        }
        match self {
            Expr::Const { v, .. } => Some(*v == 1),
            _ => None,
        }
    }

    /// Simplification.  Expressions are already folded at construction,
    /// so this returns the expression unchanged.
    pub fn simplify(self) -> (r: Expr)
        ensures
            r == self,
    {
        self
    }

    /// The binary digits of a constant expression, most significant
    /// first.  Only single constant nodes — at most 64 bits — render;
    /// wider values are composite trees, and a backend that prints
    /// arbitrary terms is out of this library's scope.
    pub fn to_binary_string(&self) -> (r: String)
        requires
            self.wf(),
            *self is Const,
        ensures
            r@.len() == self.wid(),
            binval(r@) == self->v,
            forall|i: int| 0 <= i < r@.len() ==> r@[i] == '0' || r@[i] == '1',
    {
        let (w, v) = match self {
            Expr::Const { w, v } => (*w, *v),
            _ => {
                proof {
                    assert(false);
                }
                (1, 0)
            },
        };
        let mut out = String::new();
        let mut k: u32 = 0;
        proof {
            lemma2_to64();
            lemma_pow2_le(w as nat, 64);
            assert(out@ =~= Seq::<char>::empty());
            assert((v as nat) / pow2(w as nat) == 0) by {
                lemma_pow2_pos(w as nat);
                lemma_basic_div(v as int, pow2(w as nat) as int);
            }
        }
        while k < w
            invariant
                out@.len() == k,
                k <= w,
                1 <= w <= 64,
                (v as nat) < pow2(w as nat),
                binval(out@) == (v as nat) / pow2((w - k) as nat),
                forall|i: int| 0 <= i < out@.len() ==> out@[i] == '0' || out@[i] == '1',
            decreases w - k,
        {
            let j = w - k - 1;
            proof {
                lemma_pow2_pos(j as nat);
            }
            let bit = (v / pow2_u64(j)) % 2;
            let ghost before = out@;
            out.append(
                if bit == 1 {
                    "1"
                } else {
                    "0"
                },
            );
            proof {
                reveal_strlit("0");
                reveal_strlit("1");
                assert("0"@.len() == 1 && "1"@.len() == 1);
                assert("0"@[0] == '0' && "1"@[0] == '1');
                assert(out@.drop_last() =~= before);
                lemma_pow2_unfold((j + 1) as nat);
                lemma_div_denominator(v as int, pow2(j as nat) as int, 2);
                lemma_fundamental_div_mod((v as nat / pow2(j as nat)) as int, 2);
                assert((v as nat) / pow2((j + 1) as nat) == ((v as nat) / pow2(j as nat)) / 2);
            }
            k = k + 1;
        }
        proof {
            lemma2_to64();
            assert(binval(out@) == (v as nat) / pow2(0));
        }
        out
    }
}

/// A well-formed expression has a positive width that fits in `u32`.
pub proof fn lemma_wf_wid_pos(e: Expr)
    requires
        e.wf(),
    ensures
        1 <= e.wid() <= u32::MAX,
    decreases e,
{
    match e {
        Expr::Const { .. } => {},
        Expr::Sym { .. } => {},
        Expr::Not { e: inner } => lemma_wf_wid_pos(*inner),
        Expr::Binop { op, a, b } => {
            lemma_wf_wid_pos(*a);
        },
        Expr::Ite { c, t, e: el } => {
            lemma_wf_wid_pos(*t);
        },
        Expr::Slice { lo, hi, e: inner } => {
            lemma_wf_wid_pos(*inner);
        },
        Expr::Concat { hi_e, lo_e } => {
            lemma_wf_wid_pos(*hi_e);
            lemma_wf_wid_pos(*lo_e);
        },
        Expr::ZeroExt { w, e: inner } => lemma_wf_wid_pos(*inner),
        Expr::SignExt { w, e: inner } => lemma_wf_wid_pos(*inner),
    }
}

} // verus!
