//! Algebraic laws of the expression semantics.
//!
//! Every operation's contract states its result through the
//! specification functions of [`crate::expr`] ([`slice_val`],
//! [`concat_val`], [`denote`], ...).  The laws below are proved over
//! those same functions, so together with the operations' contracts
//! they state laws of the executable algebra: slicing a whole value is
//! the identity, splitting a value and concatenating the parts gives
//! the value back, equality is the complement of inequality, addition
//! commutes, `and` is idempotent, `xor` with itself is zero, and
//! writing a value's own bits back into it changes nothing.

use vstd::prelude::*;
use vstd::arithmetic::power2::{pow2, lemma_pow2_adds, lemma_pow2_pos, lemma2_to64};
use vstd::arithmetic::div_mod::{
    lemma_small_mod, lemma_fundamental_div_mod, lemma_breakdown, lemma_multiply_divide_lt,
};
use vstd::arithmetic::mul::lemma_mul_is_commutative;

use crate::derived::replace_val;
use crate::expr::{
    BinOp, bits_and, bits_xor, bool_bit, concat_val, denote, not_val, slice_val,
};

verus! {

/// Slicing all of a value is the identity: `e.slice(0, w-1)` denotes
/// the same value as `e` for every well-formed `e` of width `w`.
pub proof fn lemma_slice_full_identity(x: nat, w: nat)
    requires
        w >= 1,
        x < pow2(w),
    ensures
        slice_val(x, 0, (w - 1) as nat) == x,
{
    lemma2_to64();
    lemma_small_mod(x, pow2(w));
}

/// Splitting a value of width `w` at bit `m` and concatenating the two
/// parts gives the value back:
/// `concat(e.slice(m, w-1), e.slice(0, m-1))` denotes the value of `e`.
pub proof fn lemma_concat_slices_identity(x: nat, m: nat, w: nat)
    requires
        0 < m < w,
        x < pow2(w),
    ensures
        concat_val(slice_val(x, m, (w - 1) as nat), slice_val(x, 0, (m - 1) as nat), m) == x,
{
    lemma2_to64();
    lemma_pow2_pos(m);
    lemma_pow2_pos((w - m) as nat);
    lemma_pow2_adds(m, (w - m) as nat);
    lemma_multiply_divide_lt(x as int, pow2(m) as int, pow2((w - m) as nat) as int);
    lemma_small_mod((x / pow2(m)) as nat, pow2((w - m) as nat));
    lemma_fundamental_div_mod(x as int, pow2(m) as int);
    lemma_mul_is_commutative(pow2(m) as int, (x / pow2(m)) as int);
    lemma_small_mod(x % pow2(m), pow2(m));
}

/// Equality is the complement of inequality:
/// `eq(a, b)` denotes `not(ne(a, b))` on every pair of values.
pub proof fn lemma_eq_is_not_ne(x: nat, y: nat, w: nat)
    ensures
        denote(BinOp::Eq, x, y, w) == not_val(denote(BinOp::Ne, x, y, w), 1),
{
    lemma2_to64();
    lemma_small_mod(bool_bit(x != y), 2);
}

/// Addition commutes: `add(a, b)` and `add(b, a)` denote the same
/// value.
pub proof fn lemma_add_commutes(x: nat, y: nat, w: nat)
    ensures
        denote(BinOp::Add, x, y, w) == denote(BinOp::Add, y, x, w),
{
}

/// `and` is idempotent: `and(a, a)` denotes the value of `a`.
pub proof fn lemma_and_self_identity(x: nat, w: nat)
    requires
        x < pow2(w),
    ensures
        bits_and(x, x, w) == x,
    decreases w,
{
    lemma2_to64();
    if w == 0 {
    } else {
        vstd::arithmetic::power2::lemma_pow2_unfold(w);
        assert(x / 2 < pow2((w - 1) as nat)) by {
            lemma_multiply_divide_lt(x as int, 2, pow2((w - 1) as nat) as int);
        }
        lemma_and_self_identity(x / 2, (w - 1) as nat);
        assert(bits_and(x / 2, x / 2, (w - 1) as nat) == x / 2);
        assert(bits_and(x, x, w) == (if x % 2 == 1 {
            1nat
        } else {
            0nat
        }) + 2 * bits_and(x / 2, x / 2, (w - 1) as nat));
        assert(x == 2 * (x / 2) + x % 2);
    }
}

/// `xor` of a value with itself denotes zero.
pub proof fn lemma_xor_self_zero(x: nat, w: nat)
    ensures
        bits_xor(x, x, w) == 0,
    decreases w,
{
    if w == 0 {
    } else {
        lemma_xor_self_zero(x / 2, (w - 1) as nat);
    }
}

/// A symbol admits every value of its width: for any value below
/// `2^w` there is an assignment under which the symbol evaluates to
/// it.  Together with the allocation contract — a fresh object's value
/// is the symbol labelled with the (never repeating) allocation
/// counter — this is what reading a fresh allocation back
/// unconstrained means at the expression level.
pub proof fn lemma_sym_admits_every_value(name: Seq<char>, w: nat, x: nat)
    requires
        x < pow2(w),
    ensures
        exists|env: crate::expr::Env| #[trigger] crate::expr::sym_value(env, name, w) == x,
{
    let env = Map::<Seq<char>, nat>::empty().insert(name, x);
    lemma_small_mod(x, pow2(w));
    assert(crate::expr::sym_value(env, name, w) == x);
}

/// Reading back exactly the bits just written returns the written
/// value: slicing the replaced range out of a replaced value yields
/// the replacement.  Together with the contracts of
/// `ObjectMemory::write` and `ObjectMemory::read`, a read of
/// `v.width` bits at an address just written with `v` denotes the
/// value of `v` under every assignment.
pub proof fn lemma_write_read_roundtrip(x: nat, y: nat, k: nat, m: nat, w: nat)
    requires
        m >= 1,
        k + m <= w,
        y < pow2(m),
    ensures
        slice_val(replace_val(x, y, k, m, w), k, (k + m - 1) as nat) == y,
{
    lemma2_to64();
    lemma_pow2_pos(k);
    lemma_pow2_pos(m);
    lemma_pow2_adds(k, m);
    let up: nat = if k + m < w {
        slice_val(x, k + m, (w - 1) as nat)
    } else {
        0nat
    };
    let low: nat = if k > 0 {
        slice_val(x, 0, (k - 1) as nat)
    } else {
        0nat
    };
    let total = replace_val(x, y, k, m, w);
    assert(total == up * pow2(k + m) + y * pow2(k) + low);
    assert(low < pow2(k)) by {
        if k > 0 {
            lemma_pow2_pos(k);
        }
    }
    assert(total == (up * pow2(m) + y) * pow2(k) + low) by {
        assert(up * (pow2(m) * pow2(k)) == (up * pow2(m)) * pow2(k)) by (nonlinear_arith);
        assert((up * pow2(m) + y) * pow2(k) == (up * pow2(m)) * pow2(k) + y * pow2(k))
            by (nonlinear_arith);
        assert(pow2(k + m) == pow2(m) * pow2(k)) by {
            lemma_pow2_adds(m, k);
        }
    }
    vstd::arithmetic::div_mod::lemma_fundamental_div_mod_converse_div(
        total as int,
        pow2(k) as int,
        (up * pow2(m) + y) as int,
        low as int,
    );
    assert(total / pow2(k) == up * pow2(m) + y);
    vstd::arithmetic::div_mod::lemma_mod_multiples_vanish(
        up as int,
        y as int,
        pow2(m) as int,
    );
    assert((pow2(m) as int * up as int + y as int) % (pow2(m) as int) == (y as int) % (pow2(m) as int));
    assert(pow2(m) * up == up * pow2(m)) by (nonlinear_arith);
    lemma_small_mod(y, pow2(m));
}

/// Writing a value's own bits back into place is the identity:
/// `e.replace_part(k, e.slice(k, k+m-1))` denotes the value of `e`.
pub proof fn lemma_replace_part_roundtrip(x: nat, k: nat, m: nat, w: nat)
    requires
        m >= 1,
        k + m <= w,
        x < pow2(w),
    ensures
        replace_val(x, slice_val(x, k, (k + m - 1) as nat), k, m, w) == x,
{
    lemma2_to64();
    lemma_pow2_pos(k);
    lemma_pow2_pos(m);
    lemma_pow2_pos((k + m) as nat);
    lemma_pow2_adds(k, m);
    let y = slice_val(x, k, (k + m - 1) as nat);
    assert(y == (x / pow2(k)) % pow2(m));
    // x % 2^(k+m) splits into the middle part and the low part.
    lemma_breakdown(x as int, pow2(k) as int, pow2(m) as int);
    assert(x % pow2(k + m) == pow2(k) * y + x % pow2(k));
    // x splits into the high part and x % 2^(k+m).
    lemma_fundamental_div_mod(x as int, pow2(k + m) as int);
    assert(x == pow2(k + m) * (x / pow2(k + m)) + x % pow2(k + m));
    lemma_mul_is_commutative(pow2(k + m) as int, (x / pow2(k + m)) as int);
    lemma_mul_is_commutative(pow2(k) as int, y as int);
    if k + m < w {
        lemma_pow2_pos((w - (k + m)) as nat);
        lemma_pow2_adds((k + m) as nat, (w - (k + m)) as nat);
        lemma_multiply_divide_lt(x as int, pow2(k + m) as int, pow2((w - (k + m)) as nat) as int);
        lemma_small_mod((x / pow2(k + m)) as nat, pow2((w - (k + m)) as nat));
        assert(slice_val(x, k + m, (w - 1) as nat) == x / pow2(k + m));
    } else {
        // The slice covers the top of the value: the high part is zero.
        assert(x / pow2(k + m) == 0) by {
            lemma_pow2_pos(k + m);
            vstd::arithmetic::div_mod::lemma_basic_div(x as int, pow2(k + m) as int);
        }
    }
    if k > 0 {
        assert(slice_val(x, 0, (k - 1) as nat) == x % pow2(k)) by {
            lemma_small_mod(x % pow2(k), pow2(k));
        }
    } else {
        assert(x % pow2(0) == 0) by {
            lemma_small_mod(0, 1);
        }
    }
}

} // verus!
