//! Fixed-point arithmetic: Q16.16 positions, Q12.20 speeds, Q8.8 lateral
//! offsets. Values are written in metres (and metres per second) and
//! converted to raw form by rounding, as the simulator's float boundary
//! does.

use velos::fixed_point::{fix_mul_mixed, fix_mul_q16, FixLat, FixPos, FixSpd};

fn pos(v: f64) -> FixPos {
    FixPos::from_raw((v * 65536.0).round() as i32)
}

fn spd(v: f64) -> FixSpd {
    FixSpd::from_raw((v * 1_048_576.0).round() as i32)
}

fn lat(v: f64) -> FixLat {
    FixLat::from_raw((v * 256.0).round() as i32)
}

fn pos_f64(p: FixPos) -> f64 {
    p.raw() as f64 / 65536.0
}

fn spd_f64(s: FixSpd) -> f64 {
    s.raw() as f64 / 1_048_576.0
}

#[test]
fn raw_round_trip_keeps_every_value() {
    for &r in &[0, 1, -1, 65536, -65536, i32::MAX, i32::MIN] {
        assert_eq!(FixPos::from_raw(r).raw(), r);
        assert_eq!(FixPos::from_raw(FixPos::from_raw(r).raw()), FixPos::from_raw(r));
        assert_eq!(FixSpd::from_raw(FixSpd::from_raw(r).raw()), FixSpd::from_raw(r));
        assert_eq!(FixLat::from_raw(FixLat::from_raw(r).raw()), FixLat::from_raw(r));
    }
    // No scaling or clamping: one metre is 65536 raw units.
    assert_eq!(pos(-1.0).raw(), -65536);
}

#[test]
fn fix_mul_q16_one_times_two() {
    let result = fix_mul_q16(pos(1.0).raw(), pos(2.0).raw());
    assert_eq!(result, pos(2.0).raw(), "1.0 * 2.0 should equal 2.0 in Q16.16");
}

#[test]
fn fix_mul_q16_handles_max_position_without_overflow() {
    let max_pos = pos(32767.0);
    let result = fix_mul_q16(max_pos.raw(), pos(1.0).raw());
    assert_eq!(result, max_pos.raw(), "max_pos * 1.0 should equal max_pos");
}

#[test]
fn fix_mul_q16_negative_values() {
    let result = fix_mul_q16(pos(-1.0).raw(), pos(2.0).raw());
    assert_eq!(result, pos(-2.0).raw(), "-1.0 * 2.0 should equal -2.0");
}

#[test]
fn fix_mul_q16_negative_times_negative() {
    let result = fix_mul_q16(pos(-3.0).raw(), pos(-2.0).raw());
    assert_eq!(result, pos(6.0).raw(), "-3.0 * -2.0 should equal 6.0");
}

#[test]
fn fix_mul_q16_zero() {
    assert_eq!(fix_mul_q16(pos(0.0).raw(), pos(5.0).raw()), 0);
}

#[test]
fn fix_mul_q16_fractional() {
    let result = fix_mul_q16(pos(0.5).raw(), pos(4.0).raw());
    assert_eq!(result, pos(2.0).raw(), "0.5 * 4.0 should equal 2.0");
}

#[test]
fn fix_mul_q16_large_values() {
    let result = fix_mul_q16(pos(1000.0).raw(), pos(30.0).raw());
    assert_eq!(result, pos(30000.0).raw());
}

#[test]
fn fix_mul_q16_truncates_fraction_toward_zero() {
    // 1.5 * raw 1 = 1.5 raw units -> magnitude truncated to 1, sign kept.
    assert_eq!(fix_mul_q16(pos(1.5).raw(), 1), 1);
    assert_eq!(fix_mul_q16(pos(-1.5).raw(), 1), -1);
    // The smallest fractions vanish.
    assert_eq!(fix_mul_q16(1, 1), 0);
    assert_eq!(fix_mul_q16(-1, 1), 0);
}

#[test]
fn fix_mul_q16_is_commutative_on_samples() {
    let samples = [0, 1, -1, 65536, -65536, 98304, 123_456_789, -987_654, 32767 * 65536];
    for &a in &samples {
        for &b in &samples {
            let wide = ((a as i64).abs() * (b as i64).abs()) >> 16;
            if wide <= i32::MAX as i64 {
                assert_eq!(fix_mul_q16(a, b), fix_mul_q16(b, a));
            }
        }
    }
}

#[test]
fn fixpos_addition() {
    assert_eq!(pos(1.5) + pos(2.25), pos(3.75), "1.5 + 2.25 should equal 3.75");
}

#[test]
fn fixpos_subtraction() {
    assert_eq!(pos(5.0) - pos(3.0), pos(2.0), "5.0 - 3.0 should equal 2.0");
}

#[test]
fn fixpos_negation() {
    assert_eq!(-pos(3.0), pos(-3.0), "neg(3.0) should equal -3.0");
}

#[test]
fn fixpos_add_then_sub_restores_even_when_wrapping() {
    let a = FixPos::from_raw(i32::MAX);
    let b = FixPos::from_raw(10);
    let sum = a + b;
    assert_eq!(sum.raw(), i32::MIN + 9);
    assert_eq!(sum - b, a);
    assert_eq!(-(-a), a);
    assert_eq!((-FixPos::from_raw(i32::MIN)).raw(), i32::MIN);
}

#[test]
fn fixspd_and_fixlat_arithmetic() {
    assert_eq!(spd(1.5) + spd(0.5), spd(2.0));
    assert_eq!(spd(1.5) - spd(0.5), spd(1.0));
    assert_eq!(-spd(2.0), spd(-2.0));
    assert_eq!(lat(1.5) + lat(0.5), lat(2.0));
    assert_eq!(lat(1.5) - lat(0.5), lat(1.0));
    assert_eq!(-lat(2.0), lat(-2.0));
}

#[test]
fn fixpos_ordering() {
    let a = pos(1.0);
    let b = pos(2.0);
    assert!(a < b);
    assert!(b > a);
    let c = pos(-1.0);
    assert!(c < a);
}

#[test]
fn fix_mul_mixed_speed_times_dt() {
    let s = spd(13.89);
    let result = fix_mul_mixed(s, pos(0.1));
    let tolerance = 0.001;
    let result_f64 = pos_f64(result);
    let expected = 13.89 * 0.1;
    assert!((result_f64 - expected).abs() < tolerance, "speed({}) * dt(0.1) = {result_f64}, expected ~{expected}", spd_f64(s));
}

#[test]
fn fix_mul_mixed_zero_speed() {
    let result = fix_mul_mixed(spd(0.0), pos(0.1));
    assert_eq!(result.raw(), 0, "zero speed * dt should be zero displacement");
}

#[test]
fn fix_mul_mixed_exact_value_and_floor() {
    // 1.0 m/s for 1.0 s -> exactly 1.0 m.
    assert_eq!(fix_mul_mixed(spd(1.0), pos(1.0)), pos(1.0));
    // A negative product rounds toward negative infinity.
    assert_eq!(fix_mul_mixed(FixSpd::from_raw(-1), FixPos::from_raw(1)).raw(), -1);
    assert_eq!(fix_mul_mixed(FixSpd::from_raw(1), FixPos::from_raw(1)).raw(), 0);
}
