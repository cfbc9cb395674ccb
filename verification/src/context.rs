//! The solver context: the factory for expressions.
//!
//! The context mints constants, fresh symbols and the signed and
//! unsigned extreme values of any width.  Values wider than 64 bits are
//! built compositionally out of constants of at most 64 bits, so every
//! factory method works at every width.

use vstd::prelude::*;
use vstd::arithmetic::power2::{pow2, lemma_pow2_adds, lemma_pow2_pos, lemma2_to64, lemma_pow2_unfold};
use vstd::arithmetic::div_mod::lemma_small_mod;
use vstd::string::StrSliceExecFns;

use crate::expr::{Env, Expr, binval, sym_value};
use crate::ops::{mask_u64, pow2_u64, spec_constant};
use crate::semantics::lemma_pow2_le;

verus! {

/// The all-ones expression of width `w`: a constant for widths up to
/// 64, a concatenation of constants beyond.
pub(crate) fn ones_expr(w: u32) -> (r: Expr)
    requires
        w >= 1,
    ensures
        r.wf(),
        r.wid() == w,
        forall|env: Env| #[trigger] r.eval(env) == pow2(w as nat) - 1,
        w <= 64 ==> r is Const,
    decreases w,
{
    if w <= 64 {
        proof {
            lemma_pow2_pos(w as nat);
        }
        Expr::Const { w, v: mask_u64(w) }
    } else {
        let hi = Expr::Const { w: 64, v: 0xFFFFFFFFFFFFFFFF };
        let lo = ones_expr(w - 64);
        let r = Expr::Concat { hi_e: Box::new(hi), lo_e: Box::new(lo) };
        proof {
            lemma_pow2_adds(64, (w - 64) as nat);
            lemma_pow2_pos((w - 64) as nat);
            lemma_pow2_pos(w as nat);
            lemma2_to64();
            assert(hi.wf());
            assert(hi.wid() == 64);
            assert(r.wf());
            assert(r.wid() == w);
            assert forall|env: Env| #[trigger] r.eval(env) == pow2(w as nat) - 1 by {
                assert(hi.eval(env) == 0xFFFFFFFFFFFFFFFF);
                assert(r.eval(env) == crate::expr::concat_val(
                    hi.eval(env),
                    lo.eval(env),
                    lo.wid(),
                ));
                assert((pow2(64) - 1) * pow2((w - 64) as nat) == pow2(64) * pow2((w - 64) as nat)
                    - pow2((w - 64) as nat)) by (nonlinear_arith);
            }
        }
        r
    }
}

/// The zero expression of width `w`.
pub(crate) fn zero_expr(w: u32) -> (r: Expr)
    requires
        w >= 1,
    ensures
        r.wf(),
        r.wid() == w,
        forall|env: Env| #[trigger] r.eval(env) == 0,
        w <= 64 ==> r is Const,
{
    proof {
        lemma_pow2_pos(w as nat);
        lemma2_to64();
    }
    if w <= 64 {
        Expr::Const { w, v: 0 }
    } else {
        let inner = Expr::Const { w: 1, v: 0 };
        let r = Expr::ZeroExt { w, e: Box::new(inner) };
        proof {
            assert(inner.wf());
            assert(inner.wid() == 1);
            assert(r.wf());
            assert forall|env: Env| #[trigger] r.eval(env) == 0 by {
                assert(inner.eval(env) == 0);
            }
        }
        r
    }
}

/// The expression with value one of width `w`.
pub(crate) fn one_expr(w: u32) -> (r: Expr)
    requires
        w >= 1,
    ensures
        r.wf(),
        r.wid() == w,
        forall|env: Env| #[trigger] r.eval(env) == 1,
        w <= 64 ==> r is Const,
{
    proof {
        lemma_pow2_le(1, w as nat);
        lemma2_to64();
    }
    if w <= 64 {
        Expr::Const { w, v: 1 }
    } else {
        let inner = Expr::Const { w: 1, v: 1 };
        let r = Expr::ZeroExt { w, e: Box::new(inner) };
        proof {
            assert(inner.wf());
            assert(inner.wid() == 1);
            assert(r.wf());
            assert forall|env: Env| #[trigger] r.eval(env) == 1 by {
                assert(inner.eval(env) == 1);
            }
        }
        r
    }
}

/// A binary digit string's value splits at any position: the high
/// digits shift up by the width of the low digits.
pub(crate) proof fn lemma_binval_split(s: Seq<char>, a: int, b: int, c: int)
    requires
        0 <= a <= b <= c <= s.len(),
    ensures
        binval(s.subrange(a, c)) == binval(s.subrange(a, b)) * pow2((c - b) as nat) + binval(
            s.subrange(b, c),
        ),
    decreases c - b,
{
    lemma2_to64();
    if c == b {
        assert(s.subrange(b, c) =~= Seq::<char>::empty());
        assert(s.subrange(a, c) == s.subrange(a, b));
    } else {
        lemma_binval_split(s, a, b, c - 1);
        lemma_pow2_unfold((c - b) as nat);
        assert(s.subrange(a, c).drop_last() =~= s.subrange(a, c - 1));
        assert(s.subrange(b, c).drop_last() =~= s.subrange(b, c - 1));
        assert(s.subrange(a, c).last() == s[c - 1]);
        assert(s.subrange(b, c).last() == s[c - 1]);
        let hi = binval(s.subrange(a, b));
        let lo = binval(s.subrange(b, c - 1));
        let bit: nat = if s[c - 1] == '1' {
            1nat
        } else {
            0nat
        };
        assert(binval(s.subrange(a, c)) == (hi * pow2((c - 1 - b) as nat) + lo) * 2 + bit);
        assert((hi * pow2((c - 1 - b) as nat) + lo) * 2 == hi * (pow2((c - 1 - b) as nat) * 2) + lo
            * 2) by (nonlinear_arith);
    }
}

/// The factory for expressions: a solver context.
///
/// Expressions are plain values here, so the context carries no
/// backend session; it exists so that every expression visibly comes
/// from one place, as in a backend-bound engine.
pub struct Context {}

impl Context {
    /// Creates a new context.
    pub fn new() -> (r: Context) {
        Context {  }
    }

    /// A fresh, unconstrained symbol of width `bits`, identified by
    /// `name`.  Every assignment of values to names gives it a value.
    pub fn unconstrained(&self, bits: u32, name: &str) -> (r: Expr)
        requires
            bits >= 1,
        ensures
            r.wf(),
            r.wid() == bits,
            r is Sym,
            forall|env: Env| #[trigger] r.eval(env) == sym_value(env, name@, bits as nat),
    {
        Expr::Sym { w: bits, name: name.to_owned() }
    }

    /// The constant one of width `bits`.
    pub fn one(&self, bits: u32) -> (r: Expr)
        requires
            bits >= 1,
        ensures
            r.wf(),
            r.wid() == bits,
            forall|env: Env| #[trigger] r.eval(env) == 1,
            bits <= 64 ==> r is Const,
    {
        one_expr(bits)
    }

    /// The constant zero of width `bits`.
    pub fn zero(&self, bits: u32) -> (r: Expr)
        requires
            bits >= 1,
        ensures
            r.wf(),
            r.wid() == bits,
            forall|env: Env| #[trigger] r.eval(env) == 0,
            bits <= 64 ==> r is Const,
    {
        zero_expr(bits)
    }

    /// A width-1 constant from a boolean.
    pub fn from_bool(&self, value: bool) -> (r: Expr)
        ensures
            r.wf(),
            r.wid() == 1,
            r is Const,
            forall|env: Env| #[trigger]
                r.eval(env) == if value {
                    1nat
                } else {
                    0nat
                },
    {
        proof {
            lemma2_to64();
        }
        Expr::Const { w: 1, v: if value {
            1
        } else {
            0
        } }
    }

    /// The constant `value mod 2^bits` of width `bits`.
    pub fn from_u64(&self, value: u64, bits: u32) -> (r: Expr)
        requires
            bits >= 1,
        ensures
            r.wf(),
            r.wid() == bits,
            forall|env: Env| #[trigger] r.eval(env) == value as nat % pow2(bits as nat),
            bits <= 64 ==> spec_constant(r) == Some((value as nat % pow2(bits as nat)) as u64),
    {
        proof {
            lemma2_to64();
            lemma_pow2_pos(bits as nat);
        }
        if bits < 64 {
            let m = value % pow2_u64(bits);
            Expr::Const { w: bits, v: m }
        } else if bits == 64 {
            proof {
                lemma_small_mod(value as nat, pow2(64));
            }
            Expr::Const { w: 64, v: value }
        } else {
            let inner = Expr::Const { w: 64, v: value };
            let r = Expr::ZeroExt { w: bits, e: Box::new(inner) };
            proof {
                lemma_pow2_le(64, bits as nat);
                lemma_small_mod(value as nat, pow2(bits as nat));
                assert(inner.wf());
                assert(inner.wid() == 64);
                assert(r.wf());
                assert forall|env: Env| #[trigger]
                    r.eval(env) == value as nat % pow2(bits as nat) by {
                    assert(inner.eval(env) == value as nat);
                }
            }
            r
        }
    }

    /// An expression of width `bits.len()` from a most-significant-
    /// first string of binary digits.
    pub fn from_binary_string(&self, bits: &str) -> (r: Expr)
        requires
            1 <= bits@.len() <= u32::MAX,
            forall|i: int| 0 <= i < bits@.len() ==> bits@[i] == '0' || bits@[i] == '1',
        ensures
            r.wf(),
            r.wid() == bits@.len(),
            forall|env: Env| #[trigger] r.eval(env) == binval(bits@),
            bits@.len() <= 64 ==> r is Const,
    {
        let n = bits.unicode_len();
        let ghost s = bits@;
        let mut acc: Option<Expr> = None;
        let mut cur: u64 = 0;
        let mut cur_len: u32 = 0;
        let mut i: usize = 0;
        proof {
            assert(s.subrange(0, 0) =~= Seq::<char>::empty());
            lemma2_to64();
        }
        while i < n
            invariant
                s == bits@,
                n == s.len(),
                1 <= n <= u32::MAX,
                forall|k: int| 0 <= k < s.len() ==> s[k] == '0' || s[k] == '1',
                i <= n,
                cur_len <= 63,
                cur_len <= i,
                (cur as nat) < pow2(cur_len as nat),
                cur as nat == binval(s.subrange(i - cur_len, i as int)),
                acc matches Some(a) ==> a.wf() && a.wid() == i - cur_len && (forall|env: Env|
                    #[trigger] a.eval(env) == binval(s.subrange(0, i - cur_len))),
                acc is None ==> i == cur_len,
                acc is Some ==> i >= 64,
                n <= 64 ==> (acc matches Some(a) ==> a is Const),
            decreases n - i,
        {
            let c = bits.get_char(i);
            let bit: u64 = if c == '1' {
                1
            } else {
                0
            };
            proof {
                lemma_pow2_unfold((cur_len + 1) as nat);
                lemma_pow2_le(cur_len as nat, 63);
                lemma2_to64();
                vstd::arithmetic::power2::lemma2_to64_rest();
                assert(s.subrange(i - cur_len, i + 1).drop_last() =~= s.subrange(
                    i - cur_len,
                    i as int,
                ));
                assert(s.subrange(i - cur_len, i + 1).last() == s[i as int]);
            }
            cur = cur * 2 + bit;
            cur_len = cur_len + 1;
            i = i + 1;
            if cur_len == 64 {
                let chunk = Expr::Const { w: 64, v: cur };
                proof {
                    lemma2_to64();
                    assert(chunk.wf());
                    assert(chunk.wid() == 64);
                }
                let new_acc = match &acc {
                    None => {
                        proof {
                            assert(s.subrange(i - 64, i as int) =~= s.subrange(0, i as int));
                            assert forall|env: Env| #[trigger]
                                chunk.eval(env) == binval(s.subrange(0, i as int)) by {}
                        }
                        chunk
                    },
                    Some(a) => {
                        let joined = a.concat(&chunk);
                        proof {
                            lemma_binval_split(s, 0, (i - 64) as int, i as int);
                            assert forall|env: Env| #[trigger]
                                joined.eval(env) == binval(s.subrange(0, i as int)) by {
                                assert(a.eval(env) == binval(s.subrange(0, i - 64)));
                                assert(chunk.eval(env) == cur);
                            }
                        }
                        joined
                    },
                };
                proof {
                    assert(s.subrange(i as int, i as int) =~= Seq::<char>::empty());
                }
                acc = Some(new_acc);
                cur = 0;
                cur_len = 0;
            }
        }
        proof {
            assert(s.subrange(0, n as int) =~= s);
        }
        if cur_len > 0 {
            let chunk = Expr::Const { w: cur_len, v: cur };
            proof {
                assert(chunk.wf());
            }
            match &acc {
                None => {
                    proof {
                        assert(s.subrange((n - cur_len) as int, n as int) =~= s);
                    }
                    chunk
                },
                Some(a) => {
                    let joined = a.concat(&chunk);
                    proof {
                        lemma_binval_split(s, 0, (n - cur_len) as int, n as int);
                        assert forall|env: Env| #[trigger] joined.eval(env) == binval(s) by {
                            assert(a.eval(env) == binval(s.subrange(0, (n - cur_len) as int)));
                            assert(chunk.eval(env) == cur);
                        }
                    }
                    joined
                },
            }
        } else {
            match acc {
                Some(a) => a,
                None => {
                    // Unreachable: the string has at least one digit.
                    proof {
                        assert(false);
                    }
                    Expr::Const { w: 1, v: 0 }
                },
            }
        }
    }

    /// The largest unsigned value of width `bits`: all ones.
    pub fn unsigned_max(&self, bits: u32) -> (r: Expr)
        requires
            bits >= 1,
        ensures
            r.wf(),
            r.wid() == bits,
            forall|env: Env| #[trigger] r.eval(env) == pow2(bits as nat) - 1,
            bits <= 64 ==> r is Const,
    {
        ones_expr(bits)
    }

    /// The largest signed value of width `bits`: a zero sign bit over
    /// all ones.
    pub fn signed_max(&self, bits: u32) -> (r: Expr)
        requires
            bits >= 2,
        ensures
            r.wf(),
            r.wid() == bits,
            forall|env: Env| #[trigger] r.eval(env) == pow2((bits - 1) as nat) - 1,
            bits <= 64 ==> r is Const,
    {
        proof {
            lemma_pow2_pos((bits - 1) as nat);
            lemma_pow2_unfold(bits as nat);
        }
        if bits <= 64 {
            Expr::Const { w: bits, v: mask_u64(bits - 1) }
        } else {
            let hi = Expr::Const { w: 1, v: 0 };
            let lo = ones_expr(bits - 1);
            let r = Expr::Concat { hi_e: Box::new(hi), lo_e: Box::new(lo) };
            proof {
                lemma2_to64();
                assert(hi.wf());
                assert(hi.wid() == 1);
                assert(r.wf());
                assert(r.wid() == bits);
                assert forall|env: Env| #[trigger]
                    r.eval(env) == pow2((bits - 1) as nat) - 1 by {
                    assert(hi.eval(env) == 0);
                    assert(lo.eval(env) == pow2((bits - 1) as nat) - 1);
                    assert(r.eval(env) == crate::expr::concat_val(
                        hi.eval(env),
                        lo.eval(env),
                        lo.wid(),
                    ));
                }
            }
            r
        }
    }

    /// The smallest signed value of width `bits`: a one sign bit over
    /// all zeros.
    pub fn signed_minimum(&self, bits: u32) -> (r: Expr)
        requires
            bits >= 2,
        ensures
            r.wf(),
            r.wid() == bits,
            forall|env: Env| #[trigger] r.eval(env) == pow2((bits - 1) as nat),
            bits <= 64 ==> r is Const,
    {
        proof {
            lemma_pow2_pos((bits - 1) as nat);
            lemma_pow2_unfold(bits as nat);
            lemma2_to64();
        }
        if bits <= 64 {
            Expr::Const { w: bits, v: pow2_u64(bits - 1) }
        } else {
            let hi = Expr::Const { w: 1, v: 1 };
            let lo = zero_expr(bits - 1);
            let r = Expr::Concat { hi_e: Box::new(hi), lo_e: Box::new(lo) };
            proof {
                assert(hi.wf());
                assert(hi.wid() == 1);
                assert(r.wf());
                assert(r.wid() == bits);
                assert forall|env: Env| #[trigger]
                    r.eval(env) == pow2((bits - 1) as nat) by {
                    assert(hi.eval(env) == 1);
                    assert(lo.eval(env) == 0);
                }
            }
            r
        }
    }
}

} // verus!
