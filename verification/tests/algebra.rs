//! Tests of the expression algebra: constant folding, slicing,
//! concatenation, saturation, and the constant accessors.

use symex::context::Context;

#[test]
fn from_u64_reduces_modulo_width() {
    let ctx = Context::new();
    // 0x1FF mod 2^8 == 0xFF
    let e = ctx.from_u64(0x1FF, 8);
    assert_eq!(e.get_constant(), Some(0xFF));
    // A value already in range is unchanged.
    let e = ctx.from_u64(42, 32);
    assert_eq!(e.get_constant(), Some(42));
    // Width 64 keeps the full value.
    let e = ctx.from_u64(u64::MAX, 64);
    assert_eq!(e.get_constant(), Some(u64::MAX));
}

#[test]
fn from_u64_wide_widths_keep_the_value() {
    let ctx = Context::new();
    let e = ctx.from_u64(7, 128);
    assert_eq!(e.len(), 128);
    // Wider than 64 bits: no single constant node, so no u64 constant.
    assert_eq!(e.get_constant(), None);
}

#[test]
fn unsigned_max_is_all_ones() {
    let ctx = Context::new();
    assert_eq!(ctx.unsigned_max(8).get_constant(), Some(0xFF));
    assert_eq!(ctx.unsigned_max(32).get_constant(), Some(0xFFFF_FFFF));
    assert_eq!(ctx.unsigned_max(64).get_constant(), Some(u64::MAX));
    assert_eq!(ctx.unsigned_max(128).len(), 128);
}

#[test]
fn signed_extremes() {
    let ctx = Context::new();
    assert_eq!(ctx.signed_max(8).get_constant(), Some(0x7F));
    assert_eq!(ctx.signed_minimum(8).get_constant(), Some(0x80));
    assert_eq!(ctx.signed_max(32).get_constant(), Some(0x7FFF_FFFF));
    assert_eq!(ctx.signed_minimum(32).get_constant(), Some(0x8000_0000));
}

#[test]
fn saturating_add_saturates_at_unsigned_max() {
    // uadds(0xFFFF_FFFF, 1) on 32 bits saturates.
    let ctx = Context::new();
    let a = ctx.unsigned_max(32);
    let b = ctx.one(32);
    let r = a.uadds(&b);
    assert_eq!(r.get_constant(), Some(0xFFFF_FFFF));
}

#[test]
fn saturating_add_without_overflow_adds() {
    let ctx = Context::new();
    let a = ctx.from_u64(40, 32);
    let b = ctx.from_u64(2, 32);
    assert_eq!(a.uadds(&b).get_constant(), Some(42));
}

#[test]
fn signed_saturating_add() {
    let ctx = Context::new();
    // Positive overflow saturates at the signed maximum.
    let a = ctx.signed_max(8);
    let b = ctx.one(8);
    assert_eq!(a.sadds(&b).get_constant(), Some(0x7F));
    // Negative overflow saturates at the signed minimum.
    let a = ctx.signed_minimum(8);
    let m1 = ctx.unsigned_max(8);  // -1 as a signed byte
    assert_eq!(a.sadds(&m1).get_constant(), Some(0x80));
    // No overflow: plain wrapping sum.
    let a = ctx.from_u64(3, 8);
    let b = ctx.from_u64(4, 8);
    assert_eq!(a.sadds(&b).get_constant(), Some(7));
}

#[test]
fn slice_of_whole_value_is_identity() {
    let ctx = Context::new();
    let e = ctx.from_u64(0xAB, 8);
    assert_eq!(e.slice(0, 7).get_constant(), Some(0xAB));
}

#[test]
fn concat_of_split_halves_restores_value() {
    let ctx = Context::new();
    let e = ctx.from_u64(0xAB, 8);
    let high = e.slice(4, 7);
    let low = e.slice(0, 3);
    assert_eq!(high.get_constant(), Some(0xA));
    assert_eq!(low.get_constant(), Some(0xB));
    let joined = high.concat(&low);
    assert_eq!(joined.len(), 8);
    assert_eq!(joined.get_constant(), Some(0xAB));
}

#[test]
fn zero_ext_keeps_value() {
    let ctx = Context::new();
    let e = ctx.from_u64(0xAB, 8);
    let wide = e.zero_ext(32);
    assert_eq!(wide.len(), 32);
    assert_eq!(wide.get_constant(), Some(0xAB));
    // Extension to the same width returns the value unchanged.
    assert_eq!(e.zero_ext(8).get_constant(), Some(0xAB));
}

#[test]
fn sign_ext_replicates_sign_bit() {
    let ctx = Context::new();
    let neg = ctx.from_u64(0x80, 8);
    assert_eq!(neg.sign_ext(16).get_constant(), Some(0xFF80));
    let pos = ctx.from_u64(0x7F, 8);
    assert_eq!(pos.sign_ext(16).get_constant(), Some(0x7F));
}

#[test]
fn replace_part_roundtrip_is_identity() {
    // Writing a value's own bits back into place changes nothing.
    let ctx = Context::new();
    let e = ctx.from_u64(0b1011_0110, 8);
    let middle = e.slice(2, 5);
    let r = e.replace_part(2, middle);
    assert_eq!(r.get_constant(), Some(0b1011_0110));
}

#[test]
fn replace_part_replaces_exactly_the_window() {
    let ctx = Context::new();
    let e = ctx.from_u64(0x00, 8);
    let ones = ctx.unsigned_max(4);
    let r = e.replace_part(2, ones);
    assert_eq!(r.get_constant(), Some(0b0011_1100));
}

#[test]
fn eq_is_complement_of_ne() {
    let ctx = Context::new();
    let a = ctx.from_u64(5, 16);
    let b = ctx.from_u64(6, 16);
    assert_eq!(a._eq(&b).get_constant_bool(), Some(false));
    assert_eq!(a._ne(&b).get_constant_bool(), Some(true));
    assert_eq!(a._eq(&a.clone()).get_constant_bool(), Some(true));
    // eq(a, b) equals not(ne(a, b)).
    let ne = a._ne(&b);
    assert_eq!(a._eq(&b).get_constant(), ne.not().get_constant());
}

#[test]
fn add_commutes_and_wraps() {
    let ctx = Context::new();
    let a = ctx.from_u64(0xFF, 8);
    let b = ctx.from_u64(2, 8);
    assert_eq!(a.add(&b).get_constant(), Some(1));
    assert_eq!(b.add(&a).get_constant(), Some(1));
}

#[test]
fn and_is_idempotent_and_xor_self_is_zero() {
    let ctx = Context::new();
    let a = ctx.from_u64(0xA5, 8);
    assert_eq!(a.and(&a.clone()).get_constant(), Some(0xA5));
    assert_eq!(a.xor(&a.clone()).get_constant(), Some(0));
}

#[test]
fn bitwise_and_shift_folding() {
    let ctx = Context::new();
    let a = ctx.from_u64(0b1100, 8);
    let b = ctx.from_u64(0b1010, 8);
    assert_eq!(a.and(&b).get_constant(), Some(0b1000));
    assert_eq!(a.or(&b).get_constant(), Some(0b1110));
    assert_eq!(a.xor(&b).get_constant(), Some(0b0110));
    let one = ctx.one(8);
    assert_eq!(a.sll(&one).get_constant(), Some(0b11000));
    assert_eq!(a.srl(&one).get_constant(), Some(0b110));
}

#[test]
fn division_and_remainder() {
    let ctx = Context::new();
    let a = ctx.from_u64(17, 8);
    let b = ctx.from_u64(5, 8);
    assert_eq!(a.udiv(&b).get_constant(), Some(3));
    assert_eq!(a.urem(&b).get_constant(), Some(2));
    // Division by zero yields the all-ones value.
    let z = ctx.zero(8);
    assert_eq!(a.udiv(&z).get_constant(), Some(0xFF));
    assert_eq!(a.urem(&z).get_constant(), Some(17));
}

#[test]
fn comparisons_fold() {
    let ctx = Context::new();
    let a = ctx.from_u64(3, 8);
    let b = ctx.from_u64(250, 8);
    assert_eq!(a.ult(&b).get_constant_bool(), Some(true));
    assert_eq!(a.ugt(&b).get_constant_bool(), Some(false));
    // 250 reads as a negative signed byte.
    assert_eq!(a.sgt(&b).get_constant_bool(), Some(true));
    assert_eq!(b.slt(&a).get_constant_bool(), Some(true));
}

#[test]
fn overflow_predicates() {
    let ctx = Context::new();
    let max = ctx.unsigned_max(8);
    let one = ctx.one(8);
    assert_eq!(max.uaddo(&one).get_constant_bool(), Some(true));
    assert_eq!(one.uaddo(&one).get_constant_bool(), Some(false));
    assert_eq!(one.usubo(&max).get_constant_bool(), Some(true));
    let smax = ctx.signed_max(8);
    assert_eq!(smax.saddo(&one).get_constant_bool(), Some(true));
}

#[test]
fn ite_picks_branch_on_constant_condition() {
    let ctx = Context::new();
    let t = ctx.from_u64(10, 8);
    let e = ctx.from_u64(20, 8);
    assert_eq!(ctx.from_bool(true).ite(&t, &e).get_constant(), Some(10));
    assert_eq!(ctx.from_bool(false).ite(&t, &e).get_constant(), Some(20));
}

#[test]
fn unconstrained_symbols_have_no_constant() {
    let ctx = Context::new();
    let x = ctx.unconstrained(32, "x");
    assert_eq!(x.len(), 32);
    assert_eq!(x.get_constant(), None);
    // A symbolic operation stays symbolic.
    let sum = x.add(&ctx.one(32));
    assert_eq!(sum.get_constant(), None);
    assert_eq!(sum.len(), 32);
}

#[test]
fn resize_unsigned_grows_without_changing_value() {
    let ctx = Context::new();
    let e = ctx.from_u64(0x5A, 8);
    assert_eq!(e.resize_unsigned(16).get_constant(), Some(0x5A));
}

#[test]
fn simplify_returns_the_expression() {
    let ctx = Context::new();
    let e = ctx.from_u64(9, 8);
    assert_eq!(e.simplify().get_constant(), Some(9));
}

#[test]
fn binary_string_round_trip() {
    let ctx = Context::new();
    let e = ctx.from_binary_string("1011");
    assert_eq!(e.len(), 4);
    assert_eq!(e.get_constant(), Some(0b1011));
    let s = e.to_binary_string();
    assert_eq!(s, "1011");
    // A 64-digit string fills a full constant.
    let ones = "1".repeat(64);
    let wide = ctx.from_binary_string(&ones);
    assert_eq!(wide.get_constant(), Some(u64::MAX));
    // Wider strings are represented compositionally.
    let very_wide = ctx.from_binary_string(&"10".repeat(40));
    assert_eq!(very_wide.len(), 80);
    assert_eq!(very_wide.get_constant(), None);
}
