//! Fixed-point lengths.
//!
//! A length is a signed count of sub-units, `UNIT` of which make one layout
//! unit. Lengths that a caller hands in lie between zero and `MAX_LENGTH`, so
//! that sums over a whole paragraph stay far inside `i64`.

use vstd::prelude::*;
use vstd::arithmetic::div_mod::lemma_fundamental_div_mod_converse;
use vstd::arithmetic::div_mod::lemma_fundamental_div_mod;

verus! {

/// Sub-units in one layout unit.
pub const UNIT: i64 = 1024;

/// The largest length that may be handed to the engine.
pub const MAX_LENGTH: i64 = 0x3ff_ffff;

/// The largest number of runs that one block may hold.
pub const MAX_RUNS: usize = 0x1_0000;

/// The largest magnitude that the position or width of a queued line may have
/// when a block is laid out.
pub const MAX_LINE_EXTENT: i64 = 0x100_0000_0000;

/// The largest width that one piece of text may have on its line.
pub const MAX_ADVANCE: i64 = 0x1000_0000_0000;

/// The largest magnitude that the left edge of what is free of a line may
/// reach.
pub const MAX_LEFT: i64 = 0x4000_0000_0000_0000;

/// The quotient of `a` by a positive `b`, rounded towards negative infinity.
pub fn floor_div(a: i128, b: i128) -> (q: i128)
    requires
        b > 0,
        i128::MIN < a,
    ensures
        q == a / b,
{
    if a >= 0 {
        a / b
    } else {
        let m: i128 = -a;
        let q0: i128 = (m - 1) / b;
        proof {
            let r0 = (m - 1) % (b as int);
            lemma_fundamental_div_mod(m - 1, b as int);
            assert(a == (-q0 - 1) * b + (b - r0 - 1)) by (nonlinear_arith)
                requires
                    m - 1 == b * q0 + r0,
                    a == -m,
            ;
            lemma_fundamental_div_mod_converse(a as int, b as int, -q0 - 1, b - r0 - 1);
        }
        -q0 - 1
    }
}

/// `a * b / c`, rounded towards negative infinity, for a result that fits.
pub fn mul_div(a: i64, b: i64, c: i64) -> (r: i64)
    requires
        c > 0,
        i64::MIN <= a * b / (c as int) <= i64::MAX,
    ensures
        r == a * b / (c as int),
{
    assert(-0x4000_0000_0000_0000_0000_0000_0000_0000 <= a * b
        <= 0x4000_0000_0000_0000_0000_0000_0000_0000) by (nonlinear_arith)
        requires
            i64::MIN <= a <= i64::MAX,
            i64::MIN <= b <= i64::MAX,
    ;
    let p: i128 = (a as i128) * (b as i128);
    let q: i128 = floor_div(p, c as i128);
    q as i64
}

/// Half of `a`, rounded towards negative infinity.
pub fn half(a: i64) -> (r: i64)
    ensures
        r == a / 2,
{
    let q: i128 = floor_div(a as i128, 2);
    q as i64
}

/// A share of `amount` in proportion `part / whole` is no larger in magnitude
/// than `amount` itself.
pub proof fn lemma_share_bounded(amount: int, part: int, whole: int)
    requires
        0 <= part <= whole,
        0 < whole,
    ensures
        amount >= 0 ==> 0 <= amount * part / whole <= amount,
        amount < 0 ==> amount <= amount * part / whole <= 0,
{
    let q = amount * part / whole;
    let r = amount * part % whole;
    lemma_fundamental_div_mod(amount * part, whole);
    if amount >= 0 {
        assert(0 <= q <= amount) by (nonlinear_arith)
            requires
                amount * part == whole * q + r,
                0 <= r < whole,
                0 <= part <= whole,
                amount >= 0,
        ;
    } else {
        assert(amount <= q <= 0) by (nonlinear_arith)
            requires
                amount * part == whole * q + r,
                0 <= r < whole,
                0 <= part <= whole,
                amount < 0,
        ;
    }
}

} // verus!
