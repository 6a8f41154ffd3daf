//! Fixed-point arithmetic types for cross-GPU determinism.
//!
//! - [`FixPos`] (Q16.16): position in metres.
//! - [`FixSpd`] (Q12.20): speed in metres per second.
//! - [`FixLat`] (Q8.8, stored in an `i32`): lateral offset in metres.
//!
//! Addition, subtraction and negation wrap around on overflow, exactly as
//! the integer arithmetic on the GPU does.

use vstd::prelude::*;

verus! {

/// Number of fractional bits of a position value.
pub const POS_FRAC_BITS: u32 = 16;

/// Number of fractional bits of a speed value.
pub const SPD_FRAC_BITS: u32 = 20;

/// Number of fractional bits of a lateral offset value.
pub const LAT_FRAC_BITS: u32 = 8;

/// The value of `x` reduced into the range of `i32`, as two's complement
/// wrap-around does.
pub open spec fn wrap_i32(x: int) -> int {
    let m = (x + 0x8000_0000) % 0x1_0000_0000;
    m - 0x8000_0000
}

/// Position in Q16.16 fixed-point (16 integer bits, 16 fractional bits).
///
/// Range: \[-32768, 32767\] metres. Resolution: ~0.015 mm.
#[derive(Copy, Clone, Debug, PartialEq, Eq, Structural, PartialOrd, Ord)]
pub struct FixPos(i32);

impl View for FixPos {
    type V = int;

    closed spec fn view(&self) -> int {
        self.0 as int
    }
}

impl FixPos {
    /// Access the raw `i32` representation.
    pub fn raw(self) -> (r: i32)
        ensures
            r == self@,
    {
        self.0
    }

    /// Construct from a raw `i32` value.
    pub fn from_raw(raw: i32) -> (r: Self)
        ensures
            r@ == raw,
    {
        FixPos(raw)
    }
}

impl core::ops::Add for FixPos {
    type Output = Self;

    /// Wrapping addition of the raw values.
    fn add(self, rhs: Self) -> (r: Self)
        ensures
            r@ == wrap_i32(self@ + rhs@),
    {
        FixPos(self.0.wrapping_add(rhs.0))
    }
}

impl vstd::std_specs::ops::AddSpecImpl for FixPos {
    open spec fn obeys_add_spec() -> bool {
        true
    }

    open spec fn add_req(self, rhs: Self) -> bool {
        true
    }

    closed spec fn add_spec(self, rhs: Self) -> Self {
        FixPos(wrap_i32(self@ + rhs@) as i32)
    }
}

impl core::ops::Sub for FixPos {
    type Output = Self;

    /// Wrapping subtraction of the raw values.
    fn sub(self, rhs: Self) -> (r: Self)
        ensures
            r@ == wrap_i32(self@ - rhs@),
    {
        FixPos(self.0.wrapping_sub(rhs.0))
    }
}

impl vstd::std_specs::ops::SubSpecImpl for FixPos {
    open spec fn obeys_sub_spec() -> bool {
        true
    }

    open spec fn sub_req(self, rhs: Self) -> bool {
        true
    }

    closed spec fn sub_spec(self, rhs: Self) -> Self {
        FixPos(wrap_i32(self@ - rhs@) as i32)
    }
}

impl core::ops::Neg for FixPos {
    type Output = Self;

    /// Wrapping negation of the raw value (`i32::MIN` stays `i32::MIN`).
    fn neg(self) -> (r: Self)
        ensures
            r@ == wrap_i32(-self@),
    {
        FixPos(0i32.wrapping_sub(self.0))
    }
}

impl vstd::std_specs::ops::NegSpecImpl for FixPos {
    open spec fn obeys_neg_spec() -> bool {
        true
    }

    open spec fn neg_req(self) -> bool {
        true
    }

    closed spec fn neg_spec(self) -> Self {
        FixPos(wrap_i32(-self@) as i32)
    }
}

/// Speed in Q12.20 fixed-point (12 integer bits, 20 fractional bits).
///
/// Range: \[-2048, 2047\] m/s. Resolution: ~0.001 mm/s.
#[derive(Copy, Clone, Debug, PartialEq, Eq, Structural, PartialOrd, Ord)]
pub struct FixSpd(i32);

impl View for FixSpd {
    type V = int;

    closed spec fn view(&self) -> int {
        self.0 as int
    }
}

impl FixSpd {
    /// Access the raw `i32` representation.
    pub fn raw(self) -> (r: i32)
        ensures
            r == self@,
    {
        self.0
    }

    /// Construct from a raw `i32` value.
    pub fn from_raw(raw: i32) -> (r: Self)
        ensures
            r@ == raw,
    {
        FixSpd(raw)
    }
}

impl core::ops::Add for FixSpd {
    type Output = Self;

    /// Wrapping addition of the raw values.
    fn add(self, rhs: Self) -> (r: Self)
        ensures
            r@ == wrap_i32(self@ + rhs@),
    {
        FixSpd(self.0.wrapping_add(rhs.0))
    }
}

impl vstd::std_specs::ops::AddSpecImpl for FixSpd {
    open spec fn obeys_add_spec() -> bool {
        true
    }

    open spec fn add_req(self, rhs: Self) -> bool {
        true
    }

    closed spec fn add_spec(self, rhs: Self) -> Self {
        FixSpd(wrap_i32(self@ + rhs@) as i32)
    }
}

impl core::ops::Sub for FixSpd {
    type Output = Self;

    /// Wrapping subtraction of the raw values.
    fn sub(self, rhs: Self) -> (r: Self)
        ensures
            r@ == wrap_i32(self@ - rhs@),
    {
        FixSpd(self.0.wrapping_sub(rhs.0))
    }
}

impl vstd::std_specs::ops::SubSpecImpl for FixSpd {
    open spec fn obeys_sub_spec() -> bool {
        true
    }

    open spec fn sub_req(self, rhs: Self) -> bool {
        true
    }

    closed spec fn sub_spec(self, rhs: Self) -> Self {
        FixSpd(wrap_i32(self@ - rhs@) as i32)
    }
}

impl core::ops::Neg for FixSpd {
    type Output = Self;

    /// Wrapping negation of the raw value (`i32::MIN` stays `i32::MIN`).
    fn neg(self) -> (r: Self)
        ensures
            r@ == wrap_i32(-self@),
    {
        FixSpd(0i32.wrapping_sub(self.0))
    }
}

impl vstd::std_specs::ops::NegSpecImpl for FixSpd {
    open spec fn obeys_neg_spec() -> bool {
        true
    }

    open spec fn neg_req(self) -> bool {
        true
    }

    closed spec fn neg_spec(self) -> Self {
        FixSpd(wrap_i32(-self@) as i32)
    }
}

/// Lateral offset in Q8.8 fixed-point (8 integer bits, 8 fractional bits),
/// stored in an `i32` for alignment.
///
/// Range: \[-128, 127\] metres. Resolution: ~3.9 mm.
#[derive(Copy, Clone, Debug, PartialEq, Eq, Structural, PartialOrd, Ord)]
pub struct FixLat(i32);

impl View for FixLat {
    type V = int;

    closed spec fn view(&self) -> int {
        self.0 as int
    }
}

impl FixLat {
    /// Access the raw `i32` representation.
    pub fn raw(self) -> (r: i32)
        ensures
            r == self@,
    {
        self.0
    }

    /// Construct from a raw `i32` value.
    pub fn from_raw(raw: i32) -> (r: Self)
        ensures
            r@ == raw,
    {
        FixLat(raw)
    }
}

impl core::ops::Add for FixLat {
    type Output = Self;

    /// Wrapping addition of the raw values.
    fn add(self, rhs: Self) -> (r: Self)
        ensures
            r@ == wrap_i32(self@ + rhs@),
    {
        FixLat(self.0.wrapping_add(rhs.0))
    }
}

impl vstd::std_specs::ops::AddSpecImpl for FixLat {
    open spec fn obeys_add_spec() -> bool {
        true
    }

    open spec fn add_req(self, rhs: Self) -> bool {
        true
    }

    closed spec fn add_spec(self, rhs: Self) -> Self {
        FixLat(wrap_i32(self@ + rhs@) as i32)
    }
}

impl core::ops::Sub for FixLat {
    type Output = Self;

    /// Wrapping subtraction of the raw values.
    fn sub(self, rhs: Self) -> (r: Self)
        ensures
            r@ == wrap_i32(self@ - rhs@),
    {
        FixLat(self.0.wrapping_sub(rhs.0))
    }
}

impl vstd::std_specs::ops::SubSpecImpl for FixLat {
    open spec fn obeys_sub_spec() -> bool {
        true
    }

    open spec fn sub_req(self, rhs: Self) -> bool {
        true
    }

    closed spec fn sub_spec(self, rhs: Self) -> Self {
        FixLat(wrap_i32(self@ - rhs@) as i32)
    }
}

impl core::ops::Neg for FixLat {
    type Output = Self;

    /// Wrapping negation of the raw value (`i32::MIN` stays `i32::MIN`).
    fn neg(self) -> (r: Self)
        ensures
            r@ == wrap_i32(-self@),
    {
        FixLat(0i32.wrapping_sub(self.0))
    }
}

impl vstd::std_specs::ops::NegSpecImpl for FixLat {
    open spec fn obeys_neg_spec() -> bool {
        true
    }

    open spec fn neg_req(self) -> bool {
        true
    }

    closed spec fn neg_spec(self) -> Self {
        FixLat(wrap_i32(-self@) as i32)
    }
}


// -- Multiplication ----------------------------------------------------------

/// Magnitude of an `i32` as a natural number.
pub open spec fn abs_i32(x: i32) -> nat {
    if x < 0 {
        (-x) as nat
    } else {
        x as nat
    }
}

/// Sign of the product of two non-zero values: `-1` when exactly one is
/// negative, `1` otherwise.
pub open spec fn product_sign(a: i32, b: i32) -> int {
    if (a < 0) != (b < 0) {
        -1
    } else {
        1
    }
}

/// Magnitude of a Q16.16 product: `|a| * |b|` shifted right by 16 bits.
pub open spec fn q16_magnitude(a: i32, b: i32) -> nat {
    (abs_i32(a) * abs_i32(b)) / 0x1_0000
}

/// The Q16.16 product of two raw values: the magnitude, truncated to 32
/// bits, carrying the sign of the product.
pub open spec fn fix_mul_q16_spec(a: i32, b: i32) -> int {
    if a == 0 || b == 0 {
        0
    } else {
        product_sign(a, b) * wrap_i32(q16_magnitude(a, b) as int)
    }
}

/// The Q16.16 product can be formed without overflow: it fails only when a
/// negative product's truncated magnitude is `i32::MIN`.
pub open spec fn fix_mul_q16_defined(a: i32, b: i32) -> bool {
    a == 0 || b == 0 || product_sign(a, b) == 1 || wrap_i32(q16_magnitude(a, b) as int) != i32::MIN
}

proof fn lemma_split_u32(x: u32)
    ensures
        x == (x >> 16u32) * 0x1_0000 + (x & 0xFFFFu32),
        (x >> 16u32) < 0x1_0000,
        (x & 0xFFFFu32) < 0x1_0000,
{
    assert(x == (x >> 16u32) * 0x1_0000 + (x & 0xFFFFu32)) by (bit_vector);
    assert((x >> 16u32) < 0x1_0000) by (bit_vector);
    assert((x & 0xFFFFu32) < 0x1_0000) by (bit_vector);
}

proof fn lemma_expand_product(ah: int, al: int, bh: int, bl: int)
    by (nonlinear_arith)
    ensures
        (ah * 0x1_0000 + al) * (bh * 0x1_0000 + bl) == (ah * bh * 0x1_0000 + ah * bl + al * bh)
            * 0x1_0000 + al * bl,
{
}

/// Splitting both operands into 16-bit halves computes the shifted product
/// exactly.
proof fn lemma_half_split_product(ah: nat, al: nat, bh: nat, bl: nat)
    requires
        al < 0x1_0000,
        bl < 0x1_0000,
    ensures
        ((ah * 0x1_0000 + al) * (bh * 0x1_0000 + bl)) / 0x1_0000 == ah * bh * 0x1_0000 + ah
            * bl + al * bh + (al * bl) / 0x1_0000,
{
    let k = ah * bh * 0x1_0000 + ah * bl + al * bh;
    let p = al * bl;
    lemma_expand_product(ah as int, al as int, bh as int, bl as int);
    vstd::arithmetic::div_mod::lemma_fundamental_div_mod(p as int, 0x1_0000);
    assert((k + p / 0x1_0000) * 0x1_0000 == k * 0x1_0000 + (p / 0x1_0000) * 0x1_0000)
        by (nonlinear_arith);
    vstd::arithmetic::div_mod::lemma_fundamental_div_mod_converse(
        (k * 0x1_0000 + p) as int,
        0x1_0000,
        (k + p / 0x1_0000) as int,
        (p % 0x1_0000) as int,
    );
}

proof fn lemma_u64_truncate_i32(x: u64)
    ensures
        (x as i32) as int == wrap_i32(x as int),
{
    assert((x as i32) as int == ((x as int + 0x8000_0000) % 0x1_0000_0000) - 0x8000_0000)
        by (bit_vector);
}

/// Magnitude of a raw value as a `u32` (`i32::MIN` has magnitude `2^31`).
fn magnitude_u32(x: i32) -> (r: u32)
    ensures
        r == abs_i32(x),
{
    if x < 0 {
        (0i64 - x as i64) as u32
    } else {
        x as u32
    }
}

/// Multiply two Q16.16 fixed-point values without i64 overflow.
///
/// Uses the 16-bit half-splitting technique: split each operand into
/// high (integer) and low (fractional) 16-bit halves, compute partial
/// products, then reassemble. Handles sign separately. The magnitude is
/// truncated to 32 bits before the sign is applied.
///
/// This mirrors the WGSL `fix_mul_q16` shader function exactly, so
/// CPU and GPU produce identical results.
pub fn fix_mul_q16(a: i32, b: i32) -> (r: i32)
    requires
        fix_mul_q16_defined(a, b),
    ensures
        r == fix_mul_q16_spec(a, b),
{
    if a == 0 || b == 0 {
        return 0;
    }
    let sign: i32 = if (a < 0) != (b < 0) {
        -1
    } else {
        1
    };

    let ua = magnitude_u32(a);
    let ub = magnitude_u32(b);

    let ah = ua >> 16;
    let al = ua & 0xFFFF;
    let bh = ub >> 16;
    let bl = ub & 0xFFFF;
    proof {
        lemma_split_u32(ua);
        lemma_split_u32(ub);
        assert(ah * bh < 0x1_0000_0000) by (nonlinear_arith)
            requires
                ah < 0x1_0000,
                bh < 0x1_0000,
        ;
        assert(ah * bl < 0x1_0000_0000) by (nonlinear_arith)
            requires
                ah < 0x1_0000,
                bl < 0x1_0000,
        ;
        assert(al * bh < 0x1_0000_0000) by (nonlinear_arith)
            requires
                al < 0x1_0000,
                bh < 0x1_0000,
        ;
        assert(al * bl < 0x1_0000_0000) by (nonlinear_arith)
            requires
                al < 0x1_0000,
                bl < 0x1_0000,
        ;
    }
    let hh: u64 = ah as u64 * bh as u64;
    let hl: u64 = ah as u64 * bl as u64;
    let lh: u64 = al as u64 * bh as u64;
    let ll: u64 = al as u64 * bl as u64;
    proof {
        assert(hh << 16u64 == hh * 0x1_0000) by (bit_vector)
            requires
                hh < 0x1_0000_0000,
        ;
        assert(ll >> 16u64 == ll / 0x1_0000) by (bit_vector);
    }
    let result: u64 = (hh << 16) + hl + lh + (ll >> 16);
    proof {
        lemma_half_split_product(ah as nat, al as nat, bh as nat, bl as nat);
        assert(result == q16_magnitude(a, b));
        lemma_u64_truncate_i32(result);
    }
    let t = #[verifier::truncate] (result as i32);
    proof {
        assert(t as int == wrap_i32(q16_magnitude(a, b) as int));
        assert(sign as int == product_sign(a, b));
        if sign == -1 {
            assert(t * sign == -t);
        } else {
            assert(t * sign == t);
        }
    }
    t * sign
}

/// The raw Q16.16 displacement of a Q12.20 speed over a Q16.16 timestep:
/// the exact product shifted right (rounding toward negative infinity) by
/// 20 bits, truncated to 32 bits.
pub open spec fn fix_mul_mixed_spec(spd: int, dt: int) -> int {
    wrap_i32((spd * dt) / 0x10_0000)
}

/// Multiply speed (Q12.20) by timestep (Q16.16) to produce displacement (Q16.16).
///
/// Cross-format multiplication: the product of Q12.20 * Q16.16 is Q28.36.
/// It is shifted right by 20 (the speed fractional bits) to get Q16.16,
/// using an `i64` intermediate.
pub fn fix_mul_mixed(spd: FixSpd, dt: FixPos) -> (r: FixPos)
    ensures
        r@ == fix_mul_mixed_spec(spd@, dt@),
{
    let s = spd.raw();
    let d = dt.raw();
    proof {
        assert(s * d <= 0x4000_0000_0000_0000) by (nonlinear_arith)
            requires
                i32::MIN <= s <= i32::MAX,
                i32::MIN <= d <= i32::MAX,
        ;
        assert(s * d >= -0x4000_0000_0000_0000) by (nonlinear_arith)
            requires
                i32::MIN <= s <= i32::MAX,
                i32::MIN <= d <= i32::MAX,
        ;
    }
    let product: i64 = s as i64 * d as i64;
    let shifted: i64 = product >> SPD_FRAC_BITS;
    proof {
        assert(shifted == product / 0x10_0000) by (bit_vector)
            requires
                shifted == product >> 20u32,
        ;
        assert((shifted as i32) as int == ((shifted as int + 0x8000_0000) % 0x1_0000_0000)
            - 0x8000_0000) by (bit_vector);
    }
    FixPos::from_raw(shifted as i32)
}

// -- Laws ---------------------------------------------------------------------

/// Wrapping leaves every value in the range of `i32` unchanged.
pub proof fn lemma_wrap_i32_in_range(x: int)
    requires
        i32::MIN <= x <= i32::MAX,
    ensures
        wrap_i32(x) == x,
{
    vstd::arithmetic::div_mod::lemma_small_mod((x + 0x8000_0000) as nat, 0x1_0000_0000);
}

/// Wrapping an intermediate result does not change the wrapped total.
pub proof fn lemma_wrap_i32_absorbs(x: int, y: int)
    ensures
        wrap_i32(wrap_i32(x) + y) == wrap_i32(x + y),
{
    let q = (x + 0x8000_0000) / 0x1_0000_0000;
    vstd::arithmetic::div_mod::lemma_fundamental_div_mod(x + 0x8000_0000, 0x1_0000_0000);
    assert(wrap_i32(x) + y + 0x8000_0000 == 0x1_0000_0000 * (-q) + (x + y + 0x8000_0000));
    vstd::arithmetic::div_mod::lemma_mod_multiples_vanish(-q, x + y + 0x8000_0000, 0x1_0000_0000);
}

/// Law: a fixed-point value is its raw value: two values with the same raw
/// value are the same value, so rebuilding a value from its raw value
/// (`from_raw(x.raw())`) gives `x` back, and every raw value lies in the
/// range of `i32`. Holds for positions, speeds and lateral offsets alike.
pub proof fn law_raw_value_determines_value(p1: FixPos, p2: FixPos, s1: FixSpd, s2: FixSpd, l1: FixLat, l2: FixLat)
    ensures
        p1@ == p2@ ==> p1 == p2,
        s1@ == s2@ ==> s1 == s2,
        l1@ == l2@ ==> l1 == l2,
        i32::MIN <= p1@ <= i32::MAX,
        i32::MIN <= s1@ <= i32::MAX,
        i32::MIN <= l1@ <= i32::MAX,
{
}

/// Law: adding a position and then subtracting it again gives back the
/// original position, whether or not the addition wrapped around.
pub proof fn law_add_then_sub_restores(a: FixPos, b: FixPos)
    ensures
        wrap_i32(wrap_i32(a@ + b@) - b@) == a@,
{
    lemma_wrap_i32_absorbs(a@ + b@, -b@);
    lemma_wrap_i32_in_range(a@);
}

/// Law: when the exact sum of two positions fits in 32 bits, addition is
/// exact; likewise for subtraction.
pub proof fn law_add_sub_exact_in_range(a: FixPos, b: FixPos)
    ensures
        i32::MIN <= a@ + b@ <= i32::MAX ==> wrap_i32(a@ + b@) == a@ + b@,
        i32::MIN <= a@ - b@ <= i32::MAX ==> wrap_i32(a@ - b@) == a@ - b@,
{
    if i32::MIN <= a@ + b@ <= i32::MAX {
        lemma_wrap_i32_in_range(a@ + b@);
    }
    if i32::MIN <= a@ - b@ <= i32::MAX {
        lemma_wrap_i32_in_range(a@ - b@);
    }
}

/// Law: negating twice gives back the original position (the wrap-around
/// of `i32::MIN` included).
pub proof fn law_neg_involution(a: FixPos)
    ensures
        wrap_i32(-wrap_i32(-a@)) == a@,
{
    lemma_wrap_i32_absorbs(-a@, 0);
    let w = wrap_i32(-a@);
    // -w == -(-a) + k * 2^32 for the same k, so wrapping again restores a.
    let q = (-a@ + 0x8000_0000) / 0x1_0000_0000;
    vstd::arithmetic::div_mod::lemma_fundamental_div_mod(-a@ + 0x8000_0000, 0x1_0000_0000);
    assert(-w + 0x8000_0000 == 0x1_0000_0000 * q + (a@ + 0x8000_0000));
    vstd::arithmetic::div_mod::lemma_mod_multiples_vanish(q, a@ + 0x8000_0000, 0x1_0000_0000);
    lemma_wrap_i32_in_range(a@);
}

/// Law: Q16.16 multiplication is commutative, and defined in either order
/// exactly when it is defined in the other.
pub proof fn law_fix_mul_q16_commutative(a: i32, b: i32)
    ensures
        fix_mul_q16_spec(a, b) == fix_mul_q16_spec(b, a),
        fix_mul_q16_defined(a, b) == fix_mul_q16_defined(b, a),
{
    assert(abs_i32(a) * abs_i32(b) == abs_i32(b) * abs_i32(a)) by (nonlinear_arith);
}

/// Law: multiplying by zero gives zero.
pub proof fn law_fix_mul_q16_zero(a: i32)
    ensures
        fix_mul_q16_defined(a, 0),
        fix_mul_q16_spec(a, 0) == 0,
        fix_mul_q16_spec(0, a) == 0,
{
}

/// Law: `1.0` (raw `0x1_0000`) is a unit of Q16.16 multiplication for every
/// value but `i32::MIN`.
pub proof fn law_fix_mul_q16_one(a: i32)
    requires
        a != i32::MIN,
    ensures
        fix_mul_q16_defined(a, 0x1_0000),
        fix_mul_q16_spec(a, 0x1_0000) == a,
{
    if a != 0 {
        vstd::arithmetic::div_mod::lemma_div_multiples_vanish(abs_i32(a) as int, 0x1_0000);
        assert(abs_i32(a) * 0x1_0000 == 0x1_0000 * abs_i32(a));
        assert(q16_magnitude(a, 0x1_0000) == abs_i32(a));
        lemma_wrap_i32_in_range(abs_i32(a) as int);
    }
}

/// Law: negating one operand negates the Q16.16 product (for operands
/// other than `i32::MIN`, whose negation does not exist).
pub proof fn law_fix_mul_q16_negate(a: i32, b: i32)
    requires
        a != i32::MIN,
    ensures
        fix_mul_q16_spec((-a) as i32, b) == -fix_mul_q16_spec(a, b),
{
    assert(abs_i32((-a) as i32) == abs_i32(a));
}

} // verus!
