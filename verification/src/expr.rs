//! Symbolic bitvector expressions.
//!
//! An [`Expr`] is an immutable symbolic value with a fixed bit width
//! `w >= 1`.  Expressions are plain syntax trees; their meaning is given
//! by the specification function [`eval`], which maps an expression and
//! an assignment of symbol names to values (an [`Env`]) to the unsigned
//! value of the bitvector, always below `2^w`.
//!
//! All operations that build expressions are verified against `eval`:
//! the returned tree is well formed, has the documented width, and
//! denotes exactly the documented function of the operands' values.

use vstd::prelude::*;
use vstd::arithmetic::power2::pow2;

verus! {

/// An assignment of values to symbol names.  A name that is absent is
/// read as zero; every lookup is reduced modulo `2^w` at the symbol's
/// width, so any map is a legal assignment.
pub type Env = Map<Seq<char>, nat>;

/// Binary operations over equal-width operands.  Comparisons and
/// overflow predicates return a bitvector of width 1; the rest return
/// the operands' width.
#[derive(Clone, Copy, PartialEq, Eq, Structural, Debug)]
pub enum BinOp {
    /// Wrapping addition.
    Add,
    /// Wrapping subtraction.
    Sub,
    /// Wrapping multiplication.
    Mul,
    /// Unsigned division; division by zero yields the all-ones value.
    Udiv,
    /// Signed division, truncating toward zero; division by zero yields
    /// all-ones for a non-negative dividend and 1 otherwise.
    Sdiv,
    /// Unsigned remainder; a zero divisor yields the dividend.
    Urem,
    /// Signed remainder, with the sign of the dividend; a zero divisor
    /// yields the dividend.
    Srem,
    /// Bitwise and.
    And,
    /// Bitwise or.
    Or,
    /// Bitwise exclusive or.
    Xor,
    /// Logical shift left; shift amounts of `w` or more yield zero.
    Shl,
    /// Logical shift right; shift amounts of `w` or more yield zero.
    Lshr,
    /// Arithmetic shift right (the sign bit is replicated).
    Ashr,
    /// Equality, width 1.
    Eq,
    /// Inequality, width 1.
    Ne,
    /// Unsigned less than, width 1.
    Ult,
    /// Unsigned less than or equal, width 1.
    Ule,
    /// Unsigned greater than, width 1.
    Ugt,
    /// Unsigned greater than or equal, width 1.
    Uge,
    /// Signed less than, width 1.
    Slt,
    /// Signed less than or equal, width 1.
    Sle,
    /// Signed greater than, width 1.
    Sgt,
    /// Signed greater than or equal, width 1.
    Sge,
    /// Unsigned addition overflow predicate, width 1.
    Uaddo,
    /// Signed addition overflow predicate, width 1.
    Saddo,
    /// Unsigned subtraction overflow predicate, width 1.
    Usubo,
    /// Signed subtraction overflow predicate, width 1.
    Ssubo,
    /// Unsigned multiplication overflow predicate, width 1.
    Umulo,
    /// Signed multiplication overflow predicate, width 1.
    Smulo,
}

impl BinOp {
    /// Whether the operation returns a single bit rather than a value
    /// of the operands' width.
    pub open spec fn is_predicate(self) -> bool {
        match self {
            BinOp::Eq | BinOp::Ne | BinOp::Ult | BinOp::Ule | BinOp::Ugt | BinOp::Uge
            | BinOp::Slt | BinOp::Sle | BinOp::Sgt | BinOp::Sge | BinOp::Uaddo | BinOp::Saddo
            | BinOp::Usubo | BinOp::Ssubo | BinOp::Umulo | BinOp::Smulo => true,
            _ => false,
        }
    }
}

/// A symbolic bitvector expression.
///
/// Constants are restricted to at most 64 bits; wider constant values
/// are represented compositionally (for example as a concatenation of
/// 64-bit constants), so every bitvector value of every width remains
/// expressible.
pub enum Expr {
    /// A constant of width `w` (`1 <= w <= 64`) and value `v < 2^w`.
    Const { w: u32, v: u64 },
    /// A free symbol of width `w >= 1` identified by `name`.
    Sym { w: u32, name: String },
    /// Bitwise complement.
    Not { e: Box<Expr> },
    /// A binary operation over equal-width operands.
    Binop { op: BinOp, a: Box<Expr>, b: Box<Expr> },
    /// `if c { t } else { e }` where `c` has width 1.
    Ite { c: Box<Expr>, t: Box<Expr>, e: Box<Expr> },
    /// Bits `lo ..= hi` of `e` (`0 <= lo <= hi < w`), width `hi-lo+1`.
    Slice { lo: u32, hi: u32, e: Box<Expr> },
    /// Concatenation: `hi` supplies the high bits, `lo` the low bits.
    Concat { hi_e: Box<Expr>, lo_e: Box<Expr> },
    /// Zero extension of `e` to width `w >= width(e)`.
    ZeroExt { w: u32, e: Box<Expr> },
    /// Sign extension of `e` to width `w >= width(e)`.
    SignExt { w: u32, e: Box<Expr> },
}

impl Expr {
    /// The bit width of the expression.
    pub open spec fn wid(self) -> nat
        decreases self,
    {
        match self {
            Expr::Const { w, .. } => w as nat,
            Expr::Sym { w, .. } => w as nat,
            Expr::Not { e } => e.wid(),
            Expr::Binop { op, a, .. } => if op.is_predicate() { 1nat } else { a.wid() },
            Expr::Ite { t, .. } => t.wid(),
            Expr::Slice { lo, hi, .. } => (hi - lo + 1) as nat,
            Expr::Concat { hi_e, lo_e } => hi_e.wid() + lo_e.wid(),
            Expr::ZeroExt { w, .. } => w as nat,
            Expr::SignExt { w, .. } => w as nat,
        }
    }

    /// Structural well-formedness: widths are consistent, positive, and
    /// representable as `u32`, operands of binary operations have equal
    /// widths, slice bounds are in range, and constants fit their width.
    pub open spec fn wf(self) -> bool
        decreases self,
    {
        match self {
            Expr::Const { w, v } => 1 <= w <= 64 && (v as nat) < pow2(w as nat),
            Expr::Sym { w, .. } => w >= 1,
            Expr::Not { e } => e.wf(),
            Expr::Binop { op, a, b } => a.wf() && b.wf() && a.wid() == b.wid(),
            Expr::Ite { c, t, e } => c.wf() && t.wf() && e.wf() && c.wid() == 1 && t.wid()
                == e.wid(),
            Expr::Slice { lo, hi, e } => e.wf() && lo <= hi && (hi as nat) < e.wid(),
            Expr::Concat { hi_e, lo_e } => hi_e.wf() && lo_e.wf() && hi_e.wid() + lo_e.wid() <= u32::MAX,
            Expr::ZeroExt { w, e } => e.wf() && e.wid() <= w,
            Expr::SignExt { w, e } => e.wf() && e.wid() <= w,
        }
    }

    /// The unsigned value denoted by the expression under `env`.
    pub open spec fn eval(self, env: Env) -> nat
        decreases self,
    {
        match self {
            Expr::Const { w, v } => v as nat,
            Expr::Sym { w, name } => sym_value(env, name@, w as nat),
            Expr::Not { e } => not_val(e.eval(env), e.wid()),
            Expr::Binop { op, a, b } => denote(op, a.eval(env), b.eval(env), a.wid()),
            Expr::Ite { c, t, e } => if c.eval(env) == 1 {
                t.eval(env)
            } else {
                e.eval(env)
            },
            Expr::Slice { lo, hi, e } => slice_val(e.eval(env), lo as nat, hi as nat),
            Expr::Concat { hi_e, lo_e } => concat_val(hi_e.eval(env), lo_e.eval(env), lo_e.wid()),
            Expr::ZeroExt { w, e } => e.eval(env),
            Expr::SignExt { w, e } => sign_ext_val(e.eval(env), e.wid(), w as nat),
        }
    }
}

/// The unsigned value of a most-significant-first binary digit
/// string.
pub open spec fn binval(s: Seq<char>) -> nat
    decreases s.len(),
{
    if s.len() == 0 {
        0nat
    } else {
        binval(s.drop_last()) * 2 + (if s.last() == '1' {
            1nat
        } else {
            0nat
        })
    }
}

/// The value of symbol `name` at width `w` under `env`: absent names
/// read as zero, and every value is reduced modulo `2^w`.
pub open spec fn sym_value(env: Env, name: Seq<char>, w: nat) -> nat {
    (if env.dom().contains(name) {
        env[name]
    } else {
        0nat
    }) % pow2(w)
}

/// Bitwise complement of a `w`-bit value.
pub open spec fn not_val(x: nat, w: nat) -> nat {
    (pow2(w) - 1 - x % pow2(w)) as nat
}

/// Bits `lo ..= hi` of a value.
pub open spec fn slice_val(x: nat, lo: nat, hi: nat) -> nat {
    (x / pow2(lo)) % pow2((hi - lo + 1) as nat)
}

/// The value of a concatenation whose low part has width `lo_w`.
pub open spec fn concat_val(hi: nat, lo: nat, lo_w: nat) -> nat {
    hi * pow2(lo_w) + lo
}

/// Zero- or sign-extension of a `w`-bit value to `w2 >= w` bits.
pub open spec fn sign_ext_val(x: nat, w: nat, w2: nat) -> nat {
    if x >= pow2((w - 1) as nat) {
        (x + pow2(w2) - pow2(w)) as nat
    } else {
        x
    }
}

/// The signed reading of a `w`-bit value, in `[-2^(w-1), 2^(w-1))`.
pub open spec fn to_signed(x: nat, w: nat) -> int {
    if x < pow2((w - 1) as nat) {
        x as int
    } else {
        x - pow2(w)
    }
}

/// The unsigned `w`-bit value representing the integer `s`.
pub open spec fn from_signed(s: int, w: nat) -> nat {
    (s % (pow2(w) as int)) as nat
}

/// Integer division truncating toward zero (the rounding used by the
/// signed bitvector division).
pub open spec fn trunc_div(a: int, b: int) -> int {
    if (a < 0) == (b < 0) {
        (abs_nat(a) / abs_nat(b)) as int
    } else {
        -((abs_nat(a) / abs_nat(b)) as int)
    }
}

/// Remainder matching [`trunc_div`]: `a - b * trunc_div(a, b)`.
pub open spec fn trunc_rem(a: int, b: int) -> int {
    a - b * trunc_div(a, b)
}

/// The absolute value of an integer, as a natural number.
pub open spec fn abs_nat(a: int) -> nat {
    if a < 0 {
        (-a) as nat
    } else {
        a as nat
    }
}

/// Bitwise and of the low `w` bits of two values.
pub open spec fn bits_and(x: nat, y: nat, w: nat) -> nat
    decreases w,
{
    if w == 0 {
        0nat
    } else {
        (if x % 2 == 1 && y % 2 == 1 {
            1nat
        } else {
            0nat
        }) + 2 * bits_and(x / 2, y / 2, (w - 1) as nat)
    }
}

/// Bitwise or of the low `w` bits of two values.
pub open spec fn bits_or(x: nat, y: nat, w: nat) -> nat
    decreases w,
{
    if w == 0 {
        0nat
    } else {
        (if x % 2 == 1 || y % 2 == 1 {
            1nat
        } else {
            0nat
        }) + 2 * bits_or(x / 2, y / 2, (w - 1) as nat)
    }
}

/// Bitwise exclusive or of the low `w` bits of two values.
pub open spec fn bits_xor(x: nat, y: nat, w: nat) -> nat
    decreases w,
{
    if w == 0 {
        0nat
    } else {
        (if (x % 2) != (y % 2) {
            1nat
        } else {
            0nat
        }) + 2 * bits_xor(x / 2, y / 2, (w - 1) as nat)
    }
}

/// `1` if the condition holds, `0` otherwise: the value of a width-1
/// predicate result.
pub open spec fn bool_bit(b: bool) -> nat {
    if b {
        1nat
    } else {
        0nat
    }
}

/// The signed range check used by the signed overflow predicates.
pub open spec fn signed_overflows(s: int, w: nat) -> bool {
    s < -pow2((w - 1) as nat) || s > pow2((w - 1) as nat) - 1
}

/// The value denoted by `Binop { op, a, b }` on operand values `x` and
/// `y` of width `w`.  Operand values below `2^w` give results below
/// `2^w` (below `2` for predicates).
pub open spec fn denote(op: BinOp, x: nat, y: nat, w: nat) -> nat {
    match op {
        BinOp::Add => ((x + y) % pow2(w)) as nat,
        BinOp::Sub => (((x - y) % (pow2(w) as int)) as nat),
        BinOp::Mul => ((x * y) % pow2(w)) as nat,
        BinOp::Udiv => if y == 0 {
            (pow2(w) - 1) as nat
        } else {
            x / y
        },
        BinOp::Sdiv => if y == 0 {
            if to_signed(x, w) >= 0 {
                (pow2(w) - 1) as nat
            } else {
                1nat
            }
        } else {
            from_signed(trunc_div(to_signed(x, w), to_signed(y, w)), w)
        },
        BinOp::Urem => if y == 0 {
            x
        } else {
            x % y
        },
        BinOp::Srem => if to_signed(y, w) == 0 {
            x
        } else {
            from_signed(trunc_rem(to_signed(x, w), to_signed(y, w)), w)
        },
        BinOp::And => bits_and(x, y, w),
        BinOp::Or => bits_or(x, y, w),
        BinOp::Xor => bits_xor(x, y, w),
        BinOp::Shl => ((x * pow2(y)) % pow2(w)) as nat,
        BinOp::Lshr => x / pow2(y),
        BinOp::Ashr => from_signed(to_signed(x, w) / (pow2(y) as int), w),
        BinOp::Eq => bool_bit(x == y),
        BinOp::Ne => bool_bit(x != y),
        BinOp::Ult => bool_bit(x < y),
        BinOp::Ule => bool_bit(x <= y),
        BinOp::Ugt => bool_bit(x > y),
        BinOp::Uge => bool_bit(x >= y),
        BinOp::Slt => bool_bit(to_signed(x, w) < to_signed(y, w)),
        BinOp::Sle => bool_bit(to_signed(x, w) <= to_signed(y, w)),
        BinOp::Sgt => bool_bit(to_signed(x, w) > to_signed(y, w)),
        BinOp::Sge => bool_bit(to_signed(x, w) >= to_signed(y, w)),
        BinOp::Uaddo => bool_bit(x + y >= pow2(w)),
        BinOp::Saddo => bool_bit(signed_overflows(to_signed(x, w) + to_signed(y, w), w)),
        BinOp::Usubo => bool_bit(x < y),
        BinOp::Ssubo => bool_bit(signed_overflows(to_signed(x, w) - to_signed(y, w), w)),
        BinOp::Umulo => bool_bit(x * y >= pow2(w)),
        BinOp::Smulo => bool_bit(signed_overflows(to_signed(x, w) * to_signed(y, w), w)),
    }
}

} // verus!
