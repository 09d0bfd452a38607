//! Laws of the decaying-average reader, stated and proved against the
//! specification model in [`crate::reader`].

use vstd::prelude::*;

verus! {

use vstd::arithmetic::div_mod::{
    lemma_div_by_multiple,
    lemma_div_multiples_vanish,
    lemma_div_plus_one,
    lemma_div_denominator,
    lemma_div_is_ordered,
    lemma_div_is_ordered_by_denominator,
    lemma_div_of0,
    lemma_div_pos_is_pos,
    lemma_fundamental_div_mod,
    lemma_mod_division_less_than_divisor,
    lemma_multiply_divide_le,
};
use vstd::arithmetic::mul::{
    lemma_mul_inequality,
    lemma_mul_is_commutative,
    lemma_mul_is_distributive_add,
    lemma_mul_is_distributive_sub,
};
use vstd::arithmetic::power2::{
    pow2,
    lemma_pow2_adds,
    lemma_pow2_pos,
    lemma_pow2_strictly_increases,
    lemma_pow2_unfold,
    lemma2_to64,
    lemma2_to64_rest,
};
use crate::reader::{
    AccountingSnapshot,
    DecayParameters,
    accumulated_current,
    accumulated_decayed,
    decayed_by,
    effective_now,
    periods_elapsed,
    rate_contrib,
    read_model,
    table_contrib,
    table_index,
    full_sum_scaled,
};

/// Clamping idempotence: a query older than the snapshot's capture time
/// reads exactly what a query at the capture time itself reads.
pub proof fn lemma_clamping_idempotent(s: AccountingSnapshot, now: u64, p: DecayParameters)
    requires
        now <= s.updated_at,
    ensures
        read_model(s, now, p) == read_model(s, s.updated_at, p),
{
    assert(effective_now(s, now) == effective_now(s, s.updated_at));
}

/// The clamp keeps the period count nonnegative: the effective query time
/// never precedes the snapshot's own window.
pub proof fn lemma_periods_elapsed_nonneg(s: AccountingSnapshot, now: u64, p: DecayParameters)
    requires
        p.half_life > 0,
    ensures
        periods_elapsed(s, now, p) >= 0,
{
    lemma_div_is_ordered(s.updated_at as int, effective_now(s, now), p.half_life as int);
}

/// The fixed-point rate contribution is at most `value` scaled by `2^fb`,
/// and never negative.
proof fn lemma_rate_contrib_bound(value: int, dur: int, hl: int, fb: nat)
    requires
        0 <= value,
        0 <= dur <= hl,
        0 < hl,
    ensures
        0 <= rate_contrib(value, dur, hl, fb) <= value * pow2(fb),
{
    lemma_pow2_pos(fb);
    let pp = pow2(fb) as int;
    assert(value * dur * pp <= hl * (value * pp)) by (nonlinear_arith)
        requires
            0 <= value,
            0 <= pp,
            0 <= dur <= hl,
    ;
    lemma_multiply_divide_le(value * dur * pp, hl, value * pp);
    assert(0 <= value * dur * pp) by (nonlinear_arith)
        requires
            0 <= value,
            0 <= pp,
            0 <= dur,
    ;
    lemma_div_pos_is_pos(value * dur * pp, hl);
}

/// Once at least 100 boundaries have been crossed, every decayed term has
/// reached zero and the decay-sum table its last entry: the decayed total is
/// exactly `value * (1 - 2^-20)` in fixed point.
proof fn lemma_saturated_decayed(s: AccountingSnapshot, now: u64, p: DecayParameters)
    requires
        p.wf(),
        periods_elapsed(s, now, p) >= 100,
    ensures
        accumulated_decayed(s, now, p) == (s.value as int * (pow2(20) - 1) * pow2(
            p.frac_bits as nat,
        )) / pow2(20) as int,
{
    let hl = p.half_life as int;
    let fb = p.frac_bits as nat;
    let sd = periods_elapsed(s, now, p);
    let fd = pow2(sd as nat) as int;
    lemma2_to64();
    lemma2_to64_rest();
    lemma_pow2_adds(64, 20);
    lemma_pow2_strictly_increases(84, sd as nat);
    // Every quantity fed to the decay division is under 2^84 < 2^sd.
    assert(pow2(84) == 0x10000000000000000 * 0x100000);
    lemma_basic_div_zero(s.decayed_total as int, fd);
    lemma_basic_div_zero(s.current_total as int, fd);
    lemma_mod_division_less_than_divisor(s.updated_at as int, hl);
    lemma_rate_contrib_bound(s.value as int, hl - (s.updated_at as int) % hl, hl, fb);
    assert(s.value as int * pow2(fb) <= u64::MAX as int * 0x100000) by {
        if fb < 20 {
            lemma_pow2_strictly_increases(fb, 20);
        }
        vstd::arithmetic::mul::lemma_mul_upper_bound(
            s.value as int,
            u64::MAX as int,
            pow2(fb) as int,
            0x100000,
        );
    }
    lemma_basic_div_zero(
        rate_contrib(s.value as int, hl - (s.updated_at as int) % hl, hl, fb),
        fd,
    );
    assert(table_index(sd) == 19);
    assert(full_sum_scaled(19) == pow2(20) - 1);
}

/// A nonnegative value below its divisor divides to zero.
proof fn lemma_basic_div_zero(x: int, d: int)
    requires
        0 <= x < d,
    ensures
        x / d == 0,
{
    vstd::arithmetic::div_mod::lemma_basic_div(x, d);
}

/// Table saturation: once far more boundaries have been crossed than the
/// decay-sum table distinguishes, the result no longer depends on how many —
/// only on the position inside the current window.  Two saturated queries at
/// the same window offset read the same value.
pub proof fn lemma_table_saturated(
    s: AccountingSnapshot,
    now1: u64,
    now2: u64,
    p: DecayParameters,
)
    requires
        p.wf(),
        periods_elapsed(s, now1, p) >= 100,
        periods_elapsed(s, now2, p) >= 100,
        effective_now(s, now1) % (p.half_life as int) == effective_now(s, now2) % (
        p.half_life as int),
    ensures
        read_model(s, now1, p) == read_model(s, now2, p),
{
    lemma_saturated_decayed(s, now1, p);
    lemma_saturated_decayed(s, now2, p);
}

/// Steady state: with the snapshot captured on a window boundary and the
/// query on a boundary at least 100 half-lives later, a constant rate
/// `value` reads back as `value` in fixed point, short only of the decay-sum
/// table's tail — a relative error under one part in `2^20`, plus one
/// rounding unit.
pub proof fn lemma_steady_state(s: AccountingSnapshot, now: u64, p: DecayParameters)
    requires
        p.wf(),
        s.updated_at == 0,
        (now as int) % (p.half_life as int) == 0,
        periods_elapsed(s, now, p) >= 100,
    ensures
        read_model(s, now, p) == (s.value as int * (pow2(20) - 1) * pow2(p.frac_bits as nat))
            / pow2(20) as int,
        read_model(s, now, p) <= s.value as int * pow2(p.frac_bits as nat),
        pow2(20) as int * (s.value as int * pow2(p.frac_bits as nat) - read_model(s, now, p))
            < s.value as int * pow2(p.frac_bits as nat) + pow2(20),
{
    let hl = p.half_life as int;
    let fb = p.frac_bits as nat;
    let vv = s.value as int;
    let pp = pow2(fb) as int;
    lemma2_to64();
    lemma_pow2_pos(fb);
    lemma_saturated_decayed(s, now, p);
    let dec = accumulated_decayed(s, now, p);
    // The current window has only just begun: nothing accumulated yet.
    assert(effective_now(s, now) == now as int);
    assert(effective_now(s, now) % hl == 0);
    lemma_div_of0(hl);
    assert(accumulated_current(s, now, p) == 0);
    // Blending at offset zero hands the decayed total through unchanged.
    assert(vv * (pow2(20) - 1) * pp == (vv * pp) * 0xFFFFF) by (nonlinear_arith)
        requires
            pow2(20) == 0x100000,
    ;
    let vr = vv * pp;
    lemma_div_pos_is_pos(vr * 0xFFFFF, 0x100000);
    assert(dec == (vr * 0xFFFFF) / 0x100000);
    lemma_div_by_multiple(dec, 2 * hl);
    assert(read_model(s, now, p) == dec);
    // Error bound: 2^20 * (value - read) == value + remainder < value + 2^20.
    lemma_fundamental_div_mod(vr * 0xFFFFF, 0x100000);
    lemma_mod_division_less_than_divisor(vr * 0xFFFFF, 0x100000);
    lemma_multiply_divide_le(vr * 0xFFFFF, 0x100000, vr);
}

/// With a zero rate nothing new accrues: the accumulated totals reduce to
/// the snapshot's own, purely decayed.
proof fn lemma_zero_value_components(s: AccountingSnapshot, now: u64, p: DecayParameters)
    requires
        p.wf(),
        s.value == 0,
    ensures
        periods_elapsed(s, now, p) >= 0,
        accumulated_current(s, now, p) == if periods_elapsed(s, now, p) == 0 {
            s.current_total as int
        } else {
            0int
        },
        accumulated_decayed(s, now, p) == if periods_elapsed(s, now, p) == 0 {
            s.decayed_total as int
        } else {
            decayed_by(s.decayed_total as int, periods_elapsed(s, now, p) as nat) + decayed_by(
                s.current_total as int,
                periods_elapsed(s, now, p) as nat,
            )
        },
{
    let hl = p.half_life as int;
    let sd = periods_elapsed(s, now, p);
    lemma_div_is_ordered(s.updated_at as int, effective_now(s, now), hl);
    lemma_div_of0(hl);
    if sd > 0 {
        lemma_pow2_pos(sd as nat);
        lemma_div_of0(pow2(sd as nat) as int);
        lemma_pow2_pos(20);
        lemma_div_of0(pow2(20) as int);
    }
}

/// Inside one half-life window the offset advances with the clock.
proof fn lemma_same_window_offset(eff1: int, eff2: int, hl: int)
    requires
        0 < hl,
        0 <= eff1 <= eff2,
        eff1 / hl == eff2 / hl,
    ensures
        eff1 % hl <= eff2 % hl,
{
    lemma_fundamental_div_mod(eff1, hl);
    lemma_fundamental_div_mod(eff2, hl);
}

/// The midpoint blend never exceeds the decayed total it starts from.
proof fn lemma_blend_le(a: int, m: int, hl: int)
    requires
        0 <= a,
        0 <= m < hl,
        0 < hl,
    ensures
        (a * (2 * hl - m)) / (2 * hl) <= a,
{
    lemma_mul_inequality(2 * hl - m, 2 * hl, a);
    lemma_mul_is_commutative(a, 2 * hl - m);
    lemma_mul_is_commutative(a, 2 * hl);
    lemma_multiply_divide_le(a * (2 * hl - m), 2 * hl, a);
}

/// The midpoint blend keeps at least half of the decayed total.
proof fn lemma_blend_ge_half(a: int, m: int, hl: int)
    requires
        0 <= a,
        0 <= m < hl,
        0 < hl,
    ensures
        a / 2 <= (a * (2 * hl - m)) / (2 * hl),
{
    lemma_mul_inequality(hl, 2 * hl - m, a);
    lemma_mul_is_commutative(a, 2 * hl - m);
    lemma_mul_is_commutative(a, hl);
    lemma_div_is_ordered(a * hl, a * (2 * hl - m), 2 * hl);
    lemma_mul_inequality(0, a, hl);
    lemma_div_denominator(a * hl, hl, 2);
    lemma_div_by_multiple(a, hl);
}

/// A larger offset inside the same window blends to no more.
proof fn lemma_blend_mono_offset(a: int, m1: int, m2: int, hl: int)
    requires
        0 <= a,
        0 <= m1 <= m2 < hl,
        0 < hl,
    ensures
        (a * (2 * hl - m2)) / (2 * hl) <= (a * (2 * hl - m1)) / (2 * hl),
{
    lemma_mul_inequality(2 * hl - m2, 2 * hl - m1, a);
    lemma_mul_is_commutative(a, 2 * hl - m2);
    lemma_mul_is_commutative(a, 2 * hl - m1);
    lemma_div_is_ordered(a * (2 * hl - m2), a * (2 * hl - m1), 2 * hl);
}

/// Halving the parts separately, rounding down, never beats halving the sum.
proof fn lemma_floor_half_sum(a: int, b: int)
    requires
        0 <= a,
        0 <= b,
    ensures
        a / 2 + b / 2 <= (a + b) / 2,
{
    lemma_fundamental_div_mod(a, 2);
    lemma_fundamental_div_mod(b, 2);
    lemma_fundamental_div_mod(a + b, 2);
    lemma_mod_division_less_than_divisor(a, 2);
    lemma_mod_division_less_than_divisor(b, 2);
    lemma_mod_division_less_than_divisor(a + b, 2);
}

/// Crossing strictly more boundaries leaves at most half of what crossing
/// fewer left.
proof fn lemma_decay_deeper(x: int, sd1: nat, sd2: nat)
    requires
        0 <= x,
        sd1 < sd2,
    ensures
        decayed_by(x, sd2) <= decayed_by(x, sd1) / 2,
{
    let k = (sd2 - sd1) as nat;
    lemma_pow2_adds(sd1, k);
    lemma_pow2_pos(sd1);
    lemma_pow2_pos(k);
    lemma2_to64();
    if k > 1 {
        lemma_pow2_strictly_increases(1, k);
    }
    lemma_div_denominator(x, pow2(sd1) as int, pow2(k) as int);
    lemma_div_pos_is_pos(x, pow2(sd1) as int);
    lemma_div_is_ordered_by_denominator(x / pow2(sd1) as int, 2, pow2(k) as int);
}

/// Monotonic decay: while the rate is zero, a later query never reads more
/// than an earlier one — the average only decays with time.
pub proof fn lemma_zero_value_decay_nonincreasing(
    s: AccountingSnapshot,
    now1: u64,
    now2: u64,
    p: DecayParameters,
)
    requires
        p.wf(),
        s.value == 0,
        now1 <= now2,
    ensures
        read_model(s, now2, p) <= read_model(s, now1, p),
{
    let hl = p.half_life as int;
    let dt = s.decayed_total as int;
    let ct = s.current_total as int;
    let eff1 = effective_now(s, now1);
    let eff2 = effective_now(s, now2);
    let sd1 = periods_elapsed(s, now1, p);
    let sd2 = periods_elapsed(s, now2, p);
    let m1 = eff1 % hl;
    let m2 = eff2 % hl;
    lemma_zero_value_components(s, now1, p);
    lemma_zero_value_components(s, now2, p);
    lemma_mod_division_less_than_divisor(eff1, hl);
    lemma_mod_division_less_than_divisor(eff2, hl);
    lemma_div_is_ordered(eff1, eff2, hl);
    let a1 = accumulated_decayed(s, now1, p);
    let a2 = accumulated_decayed(s, now2, p);
    if sd1 > 0 {
        lemma_pow2_pos(sd1 as nat);
        lemma_div_pos_is_pos(dt, pow2(sd1 as nat) as int);
        lemma_div_pos_is_pos(ct, pow2(sd1 as nat) as int);
    }
    if sd2 > 0 {
        lemma_pow2_pos(sd2 as nat);
        lemma_div_pos_is_pos(dt, pow2(sd2 as nat) as int);
        lemma_div_pos_is_pos(ct, pow2(sd2 as nat) as int);
    }
    if sd1 == sd2 {
        lemma_same_window_offset(eff1, eff2, hl);
        assert(a1 == a2);
        lemma_blend_mono_offset(a1, m1, m2, hl);
    } else {
        lemma_blend_le(a2, m2, hl);
        if sd1 == 0 {
            lemma_decay_deeper(dt, 0, sd2 as nat);
            lemma_decay_deeper(ct, 0, sd2 as nat);
            lemma_pow2_pos(0);
            lemma2_to64();
            assert(decayed_by(dt, 0) == dt);
            assert(decayed_by(ct, 0) == ct);
            lemma_blend_ge_half(dt, m1, hl);
            lemma_floor_half_sum(dt, ct);
            assert(read_model(s, now2, p) <= a2);
            assert(a2 <= dt / 2 + ct / 2);
            assert(dt / 2 + ct / 2 <= (dt * (2 * hl - m1)) / (2 * hl) + ct / 2);
            assert(read_model(s, now1, p) == (dt * (2 * hl - m1)) / (2 * hl) + ct / 2);
        } else {
            let b1 = decayed_by(dt, sd1 as nat);
            let c1 = decayed_by(ct, sd1 as nat);
            lemma_decay_deeper(dt, sd1 as nat, sd2 as nat);
            lemma_decay_deeper(ct, sd1 as nat, sd2 as nat);
            lemma_floor_half_sum(b1, c1);
            lemma_blend_ge_half(a1, m1, hl);
            assert(read_model(s, now2, p) <= a2);
            assert(a2 <= a1 / 2);
            assert(a1 / 2 <= (a1 * (2 * hl - m1)) / (2 * hl));
            assert(read_model(s, now1, p) == (a1 * (2 * hl - m1)) / (2 * hl));
        }
    }
}

/// Shrinking a dividend by `a` lowers its floored quotient by at most
/// `a / d + 1`.
proof fn lemma_div_step_upper(x: int, a: int, d: int)
    requires
        0 <= a,
        0 < d,
    ensures
        x / d - (x - a) / d <= a / d + 1,
{
    lemma_fundamental_div_mod(x, d);
    lemma_fundamental_div_mod(x - a, d);
    lemma_fundamental_div_mod(a, d);
    lemma_mod_division_less_than_divisor(x, d);
    lemma_mod_division_less_than_divisor(x - a, d);
    lemma_mod_division_less_than_divisor(a, d);
    let q = x / d - (x - a) / d - a / d;
    assert(d * q == a % d + (x - a) % d - x % d) by {
        lemma_mul_is_distributive_sub(d, x / d, (x - a) / d);
        lemma_mul_is_distributive_sub(d, x / d - (x - a) / d, a / d);
    }
    if q >= 2 {
        lemma_mul_inequality(2, q, d);
        lemma_mul_is_commutative(q, d);
    }
}

/// Flooring the parts separately costs at most one against flooring the sum.
proof fn lemma_sum_div_upper(x: int, y: int, d: int)
    requires
        0 < d,
    ensures
        (x + y) / d <= x / d + y / d + 1,
{
    lemma_fundamental_div_mod(x, d);
    lemma_fundamental_div_mod(y, d);
    lemma_fundamental_div_mod(x + y, d);
    lemma_mod_division_less_than_divisor(x, d);
    lemma_mod_division_less_than_divisor(y, d);
    lemma_mod_division_less_than_divisor(x + y, d);
    let q = (x + y) / d - x / d - y / d;
    assert(d * q == x % d + y % d - (x + y) % d) by {
        lemma_mul_is_distributive_sub(d, (x + y) / d, x / d);
        lemma_mul_is_distributive_sub(d, (x + y) / d - x / d, y / d);
    }
    if q >= 2 {
        lemma_mul_inequality(2, q, d);
        lemma_mul_is_commutative(q, d);
    }
}

/// Halving the parts separately, rounding down, trails halving the sum by
/// at most one.
proof fn lemma_floor_half_sum_lower(a: int, b: int)
    requires
        0 <= a,
        0 <= b,
    ensures
        (a + b) / 2 - 1 <= a / 2 + b / 2,
{
    lemma_fundamental_div_mod(a, 2);
    lemma_fundamental_div_mod(b, 2);
    lemma_fundamental_div_mod(a + b, 2);
    lemma_mod_division_less_than_divisor(a, 2);
    lemma_mod_division_less_than_divisor(b, 2);
    lemma_mod_division_less_than_divisor(a + b, 2);
}

/// A decayed total passes through the blend unchanged at window offset zero.
proof fn lemma_blend_at_offset_zero(a: int, hl: int)
    requires
        0 <= a,
        0 < hl,
    ensures
        (a * (2 * hl)) / (2 * hl) == a,
{
    lemma_div_by_multiple(a, 2 * hl);
}

/// The blend one unit before a boundary exceeds half the decayed total by
/// at most `a / (2 * hl) + 1`.
proof fn lemma_blend_before_boundary(a: int, hl: int)
    requires
        0 <= a,
        0 < hl,
    ensures
        (a * (hl + 1)) / (2 * hl) <= a / 2 + a / (2 * hl) + 1,
{
    lemma_mul_is_distributive_add(a, hl, 1);
    lemma_sum_div_upper(a * hl, a, 2 * hl);
    lemma_mul_inequality(0, a, hl);
    lemma_div_denominator(a * hl, hl, 2);
    lemma_div_by_multiple(a, hl);
}

/// Flooring the parts separately never beats flooring the sum.
proof fn lemma_sum_div_lower(x: int, y: int, d: int)
    requires
        0 < d,
    ensures
        x / d + y / d <= (x + y) / d,
{
    lemma_fundamental_div_mod(x, d);
    lemma_fundamental_div_mod(y, d);
    lemma_fundamental_div_mod(x + y, d);
    lemma_mod_division_less_than_divisor(x, d);
    lemma_mod_division_less_than_divisor(y, d);
    lemma_mod_division_less_than_divisor(x + y, d);
    let q = x / d + y / d - (x + y) / d;
    assert(d * q == (x + y) % d - x % d - y % d) by {
        lemma_mul_is_distributive_add(d, x / d, y / d);
        lemma_mul_is_distributive_sub(d, x / d + y / d, (x + y) / d);
    }
    if q >= 1 {
        lemma_mul_inequality(1, q, d);
        lemma_mul_is_commutative(q, d);
    }
}

/// A whole window of rate `value` contributes exactly `value`, scaled.
proof fn lemma_rate_contrib_full(value: int, hl: int, fb: nat)
    requires
        0 <= value,
        0 < hl,
    ensures
        rate_contrib(value, hl, hl, fb) == value * pow2(fb),
{
    let pp = pow2(fb) as int;
    assert(value * hl * pp == (value * pp) * hl) by (nonlinear_arith);
    lemma_mul_inequality(0, value, pp);
    lemma_div_by_multiple(value * pp, hl);
}

/// One more time unit raises the rate contribution by at most one tick of
/// the rate — `value` scaled, over the half-life — plus a rounding unit,
/// and never lowers it.
proof fn lemma_rate_contrib_step(value: int, dur: int, hl: int, fb: nat)
    requires
        0 <= value,
        0 <= dur,
        dur + 1 <= hl,
        0 < hl,
    ensures
        rate_contrib(value, dur, hl, fb) <= rate_contrib(value, dur + 1, hl, fb),
        rate_contrib(value, dur + 1, hl, fb) <= rate_contrib(value, dur, hl, fb) + (value * pow2(
        fb)) / hl + 1,
{
    let pp = pow2(fb) as int;
    lemma_pow2_pos(fb);
    assert(value * (dur + 1) * pp == value * dur * pp + value * pp) by (nonlinear_arith);
    assert(0 <= value * pp) by (nonlinear_arith)
        requires
            0 <= value && 0 <= pp,
    ;
    lemma_div_is_ordered(value * dur * pp, value * (dur + 1) * pp, hl);
    lemma_div_step_upper(value * (dur + 1) * pp, value * pp, hl);
}

/// The decay-sum table's defining recurrence, exact in integer halving:
/// the next entry is half the current one plus half of one, and the last
/// entry reproduces itself.
proof fn lemma_full_sum_step(i: int)
    requires
        0 <= i <= 19,
    ensures
        full_sum_scaled(
            if i < 19 {
                i + 1
            } else {
                19
            },
        ) == full_sum_scaled(i) / 2 + 0x80000,
{
    lemma2_to64();
    if i < 19 {
        lemma_pow2_unfold((19 - i) as nat);
        lemma_div_multiples_vanish(pow2(19) as int - pow2((18 - i) as nat) as int, 2);
        assert(full_sum_scaled(i) == 2 * (pow2(19) as int - pow2((18 - i) as nat) as int));
    }
}

/// Neither accumulated total is ever negative.
proof fn lemma_accumulated_nonneg(s: AccountingSnapshot, now: u64, p: DecayParameters)
    requires
        p.wf(),
    ensures
        0 <= accumulated_decayed(s, now, p),
        0 <= accumulated_current(s, now, p),
{
    let hl = p.half_life as int;
    let fb = p.frac_bits as nat;
    let vv = s.value as int;
    let sd = periods_elapsed(s, now, p);
    let eff = effective_now(s, now);
    lemma_div_is_ordered(s.updated_at as int, eff, hl);
    lemma_mod_division_less_than_divisor(s.updated_at as int, hl);
    lemma_mod_division_less_than_divisor(eff, hl);
    if sd <= 0 {
        lemma_fundamental_div_mod(eff, hl);
        lemma_fundamental_div_mod(s.updated_at as int, hl);
        lemma_rate_contrib_bound(vv, eff - s.updated_at as int, hl, fb);
    } else {
        lemma_pow2_pos(sd as nat);
        let fd = pow2(sd as nat) as int;
        lemma_div_pos_is_pos(s.decayed_total as int, fd);
        lemma_div_pos_is_pos(s.current_total as int, fd);
        lemma_rate_contrib_bound(vv, hl - (s.updated_at as int) % hl, hl, fb);
        lemma_div_pos_is_pos(rate_contrib(vv, hl - (s.updated_at as int) % hl, hl, fb), fd);
        lemma_rate_contrib_bound(vv, eff % hl, hl, fb);
        if sd >= 2 {
            lemma_pow2_pos(20);
            let fs = full_sum_scaled(table_index(sd));
            lemma_pow2_strictly_increases((19 - table_index(sd)) as nat, 20);
            assert(0 <= vv * fs * pow2(fb)) by (nonlinear_arith)
                requires
                    0 <= vv && 0 <= fs && 0 <= pow2(fb),
            ;
            lemma_div_pos_is_pos(vv * fs * pow2(fb), pow2(20) as int);
        }
    }
}

/// One step that stays inside the current window: the blend offset advances
/// by one and the current total accrues one tick of the rate.
proof fn lemma_step_same_window(s: AccountingSnapshot, t: u64, p: DecayParameters)
    requires
        p.wf(),
        t < u64::MAX,
        s.updated_at <= t,
        periods_elapsed(s, (t + 1) as u64, p) == periods_elapsed(s, t, p),
    ensures
        read_model(s, (t + 1) as u64, p) - read_model(s, t, p) <= (s.value as int * pow2(
            p.frac_bits as nat,
        )) / (2 * (p.half_life as int)) + 8,
        read_model(s, t, p) - read_model(s, (t + 1) as u64, p) <= accumulated_decayed(s, t, p) / (
        2 * (p.half_life as int)) + (s.value as int * pow2(p.frac_bits as nat)) / pow2(20) as int
            + 8,
{
    let t2 = (t + 1) as u64;
    let hl = p.half_life as int;
    let fb = p.frac_bits as nat;
    let vv = s.value as int;
    let at = s.updated_at as int;
    let vpp = vv * pow2(fb);
    let eff1 = t as int;
    let eff2 = t as int + 1;
    let sd = periods_elapsed(s, t, p);
    let m1 = eff1 % hl;
    let m2 = eff2 % hl;
    lemma_mul_inequality(0, vv, pow2(fb) as int);
    lemma_pow2_pos(fb);
    lemma_pow2_pos(20);
    lemma_div_pos_is_pos(vpp, pow2(20) as int);
    lemma_div_pos_is_pos(vpp, hl);
    lemma_mod_division_less_than_divisor(eff1, hl);
    lemma_mod_division_less_than_divisor(eff2, hl);
    lemma_mod_division_less_than_divisor(at, hl);
    lemma_fundamental_div_mod(eff1, hl);
    lemma_fundamental_div_mod(eff2, hl);
    lemma_fundamental_div_mod(at, hl);
    lemma_div_is_ordered(at, eff1, hl);
    assert(m2 == m1 + 1);
    let aa = accumulated_decayed(s, t, p);
    assert(accumulated_decayed(s, t2, p) == aa);
    lemma_accumulated_nonneg(s, t, p);
    lemma_accumulated_nonneg(s, t2, p);
    let c1 = accumulated_current(s, t, p);
    let c2 = accumulated_current(s, t2, p);
    // The current total accrues between zero and one tick of the rate.
    if sd == 0 {
        lemma_rate_contrib_step(vv, eff1 - at, hl, fb);
        lemma_rate_contrib_bound(vv, eff1 - at, hl, fb);
    } else {
        lemma_rate_contrib_step(vv, m1, hl, fb);
        lemma_rate_contrib_bound(vv, m1, hl, fb);
    }
    assert(c1 <= c2 <= c1 + vpp / hl + 1);
    // Halving keeps the step within one tick over twice the half-life.
    lemma_div_is_ordered(c1, c2, 2);
    lemma_sum_div_upper(c1, c2 - c1, 2);
    lemma_div_is_ordered(c2 - c1, vpp / hl + 1, 2);
    lemma_sum_div_upper(vpp / hl, 1, 2);
    lemma_div_denominator(vpp, hl, 2);
    // The blend offset step lowers the decayed side by at most its own
    // weight over twice the half-life.
    lemma_blend_mono_offset(aa, m1, m2, hl);
    lemma_mul_is_distributive_sub(aa, 2 * hl - m1, 1);
    lemma_div_step_upper(aa * (2 * hl - m1), aa, 2 * hl);
    assert(read_model(s, t, p) == (aa * (2 * hl - m1)) / (2 * hl) + c1 / 2);
    assert(read_model(s, t2, p) == (aa * (2 * hl - m2)) / (2 * hl) + c2 / 2);
}

/// One step that crosses the first boundary after the snapshot: the
/// window's totals fold into the decayed side, halved, and the partial tail
/// replaces the elapsed duration — one tick longer, once decayed.
proof fn lemma_step_boundary_fresh(s: AccountingSnapshot, t: u64, p: DecayParameters)
    requires
        p.wf(),
        t < u64::MAX,
        s.updated_at <= t,
        periods_elapsed(s, t, p) == 0,
        periods_elapsed(s, (t + 1) as u64, p) == 1,
    ensures
        read_model(s, (t + 1) as u64, p) - read_model(s, t, p) <= (s.value as int * pow2(
            p.frac_bits as nat,
        )) / (2 * (p.half_life as int)) + 8,
        read_model(s, t, p) - read_model(s, (t + 1) as u64, p) <= accumulated_decayed(s, t, p) / (
        2 * (p.half_life as int)) + (s.value as int * pow2(p.frac_bits as nat)) / pow2(20) as int
            + 8,
{
    let t2 = (t + 1) as u64;
    let hl = p.half_life as int;
    let fb = p.frac_bits as nat;
    let vv = s.value as int;
    let at = s.updated_at as int;
    let dt = s.decayed_total as int;
    let ct = s.current_total as int;
    let vpp = vv * pow2(fb);
    let eff1 = t as int;
    let eff2 = t as int + 1;
    let m0 = at % hl;
    let m1 = eff1 % hl;
    let m2 = eff2 % hl;
    lemma_mul_inequality(0, vv, pow2(fb) as int);
    lemma_pow2_pos(fb);
    lemma_pow2_pos(20);
    lemma_div_pos_is_pos(vpp, pow2(20) as int);
    lemma_div_pos_is_pos(vpp, hl);
    lemma_mod_division_less_than_divisor(eff1, hl);
    lemma_mod_division_less_than_divisor(eff2, hl);
    lemma_mod_division_less_than_divisor(at, hl);
    lemma_fundamental_div_mod(eff1, hl);
    lemma_fundamental_div_mod(eff2, hl);
    lemma_fundamental_div_mod(at, hl);
    // The step lands exactly on the boundary.
    assert(eff2 / hl == eff1 / hl + 1);
    lemma_mul_is_distributive_add(hl, eff1 / hl, 1);
    assert(m1 == hl - 1 && m2 == 0);
    // The elapsed duration so far, one short of the window's tail.
    let u = eff1 - at;
    assert(u == hl - 1 - m0);
    lemma2_to64();
    let tail = rate_contrib(vv, hl - m0, hl, fb);
    let ru = rate_contrib(vv, u, hl, fb);
    lemma_rate_contrib_step(vv, u, hl, fb);
    lemma_rate_contrib_bound(vv, u, hl, fb);
    lemma_rate_contrib_bound(vv, hl - m0, hl, fb);
    assert(tail == rate_contrib(vv, u + 1, hl, fb));
    // The reading after the step is the folded, halved totals.
    lemma_div_pos_is_pos(dt, 2);
    lemma_div_pos_is_pos(ct, 2);
    lemma_div_pos_is_pos(tail, 2);
    let a2 = accumulated_decayed(s, t2, p);
    assert(a2 == dt / 2 + ct / 2 + tail / 2);
    lemma_div_of0(hl);
    assert(accumulated_current(s, t2, p) == 0);
    lemma_blend_at_offset_zero(a2, hl);
    assert(read_model(s, t2, p) == a2);
    // The reading before the step: blend of the untouched decayed total,
    // plus half the window's total so far.
    assert(accumulated_decayed(s, t, p) == dt);
    assert(accumulated_current(s, t, p) == ct + ru);
    assert(read_model(s, t, p) == (dt * (2 * hl - m1)) / (2 * hl) + (ct + ru) / 2);
    // Blend bounds: between half the decayed total and half plus its own
    // weight over twice the half-life.
    lemma_blend_before_boundary(dt, hl);
    lemma_mul_inequality(hl, 2 * hl - m1, dt);
    lemma_mul_is_commutative(dt, 2 * hl - m1);
    lemma_mul_is_commutative(dt, hl);
    lemma_div_is_ordered(dt * hl, dt * (2 * hl - m1), 2 * hl);
    lemma_mul_inequality(0, dt, hl);
    lemma_div_denominator(dt * hl, hl, 2);
    lemma_div_by_multiple(dt, hl);
    assert(dt / 2 <= (dt * (2 * hl - m1)) / (2 * hl) <= dt / 2 + dt / (2 * hl) + 1);
    // Splitting the halves costs at most one either way.
    lemma_sum_div_lower(ct, ru, 2);
    lemma_sum_div_upper(ct, ru, 2);
    // The tail is the elapsed duration plus one tick, halved.
    lemma_div_is_ordered(ru, tail, 2);
    lemma_sum_div_upper(ru, tail - ru, 2);
    lemma_div_is_ordered(tail - ru, vpp / hl + 1, 2);
    lemma_sum_div_upper(vpp / hl, 1, 2);
    lemma_div_denominator(vpp, hl, 2);
    assert(tail / 2 <= ru / 2 + vpp / (2 * hl) + 2);
}

/// The first table contribution, at two boundaries crossed, is exactly half
/// the rate: one full window at weight one half.
proof fn lemma_table_contrib_first(vv: int, fb: nat)
    requires
        0 <= vv,
    ensures
        table_contrib(vv, 2, fb) == (vv * pow2(fb)) / 2,
{
    lemma2_to64();
    lemma_pow2_pos(fb);
    let pp = pow2(fb) as int;
    assert(table_index(2) == 0);
    assert(full_sum_scaled(0) == 0x80000);
    let x = vv * pp;
    lemma_mul_inequality(0, vv, pp);
    assert(vv * 0x80000 * pp == x * 0x80000) by (nonlinear_arith)
        requires
            x == vv * pp,
    ;
    lemma_mul_inequality(0, x, 0x80000);
    lemma_div_by_multiple(x, 0x80000);
    lemma_div_denominator(x * 0x80000, 0x80000, 2);
}

/// Crossing one more boundary halves the table's contribution and adds half
/// the rate — the table's geometric recurrence — up to one rounding unit,
/// and, once the table has saturated, short of at most the rate over `2^20`.
proof fn lemma_table_contrib_step(vv: int, sd: int, fb: nat)
    requires
        0 <= vv,
        2 <= sd,
    ensures
        table_contrib(vv, sd + 1, fb) <= table_contrib(vv, sd, fb) / 2 + (vv * pow2(fb)) / 2 + 1,
        table_contrib(vv, sd + 1, fb) >= table_contrib(vv, sd, fb) / 2 + (vv * pow2(fb)) / 2 - (vv
            * pow2(fb)) / pow2(20) as int - 1,
{
    lemma2_to64();
    lemma_pow2_pos(fb);
    let pp = pow2(fb) as int;
    let x = vv * pp;
    lemma_mul_inequality(0, vv, pp);
    let i1 = table_index(sd);
    let fs1 = full_sum_scaled(i1);
    lemma_pow2_pos((19 - i1) as nat);
    if i1 < 19 {
        lemma_pow2_strictly_increases((19 - i1) as nat, 20);
    }
    assert(table_index(sd + 1) == if i1 < 19 {
        i1 + 1
    } else {
        19int
    });
    lemma_full_sum_step(i1);
    let fs2 = full_sum_scaled(table_index(sd + 1));
    assert(fs2 == fs1 / 2 + 0x80000);
    lemma_div_pos_is_pos(fs1, 2);
    // Split the next entry's numerator along the recurrence.
    let n1 = vv * (fs1 / 2) * pp;
    let n2 = vv * 0x80000 * pp;
    assert(vv * fs2 * pp == n1 + n2) by (nonlinear_arith)
        requires
            fs2 == fs1 / 2 + 0x80000,
            n1 == vv * (fs1 / 2) * pp,
            n2 == vv * 0x80000 * pp,
    ;
    assert(0 <= n1) by (nonlinear_arith)
        requires
            n1 == vv * (fs1 / 2) * pp,
            0 <= vv && 0 <= fs1 / 2 && 0 <= pp,
    ;
    lemma_sum_div_lower(n1, n2, 0x100000);
    lemma_sum_div_upper(n1, n2, 0x100000);
    // The added half window is exactly half the rate.
    assert(n2 == x * 0x80000) by (nonlinear_arith)
        requires
            n2 == vv * 0x80000 * pp,
            x == vv * pp,
    ;
    lemma_mul_inequality(0, x, 0x80000);
    lemma_div_by_multiple(x, 0x80000);
    lemma_div_denominator(x * 0x80000, 0x80000, 2);
    assert(n2 / 0x100000 == x / 2);
    // The halved entry carries half the old contribution, exactly while the
    // table still moves, short of the saturation tail on its last entry.
    assert(0 <= vv * fs1 * pp) by (nonlinear_arith)
        requires
            0 <= vv && 0 <= fs1 && 0 <= pp,
    ;
    lemma_div_denominator(vv * fs1 * pp, 0x100000, 2);
    if i1 < 19 {
        // The entry is even: halving it is exact.
        lemma_pow2_unfold((19 - i1) as nat);
        lemma_pow2_unfold(20);
        lemma_div_multiples_vanish(pow2(19) as int - pow2((18 - i1) as nat) as int, 2);
        assert(fs1 == 2 * (fs1 / 2));
        assert(vv * fs1 * pp == 2 * n1) by (nonlinear_arith)
            requires
                fs1 == 2 * (fs1 / 2),
                n1 == vv * (fs1 / 2) * pp,
        ;
        lemma_div_multiples_vanish(n1, 2);
        lemma_div_denominator(2 * n1, 2, 0x100000);
        assert(table_contrib(vv, sd, fb) / 2 == n1 / 0x100000);
    } else {
        // The last entry is odd: halving it sheds one unit of the rate's
        // weight over 2^20.
        assert(fs1 == 0xFFFFF && fs1 / 2 == 0x7FFFF);
        assert(vv * fs1 * pp == 2 * n1 + x) by (nonlinear_arith)
            requires
                fs1 == 0xFFFFF && fs1 / 2 == 0x7FFFF,
                n1 == vv * (fs1 / 2) * pp,
                x == vv * pp,
        ;
        lemma_sum_div_lower(2 * n1, x, 0x200000);
        lemma_sum_div_upper(2 * n1, x, 0x200000);
        lemma_div_multiples_vanish(n1, 2);
        lemma_div_denominator(2 * n1, 2, 0x100000);
        lemma_div_is_ordered_by_denominator(x, 0x100000, 0x200000);
        assert(n1 / 0x100000 <= table_contrib(vv, sd, fb) / 2 <= n1 / 0x100000 + x / 0x100000
            + 1);
    }
}

/// One step that crosses a boundary beyond the snapshot's window: every
/// decayed term halves, the table contribution follows its recurrence, and
/// the just-finished window's current total — one tick short of full —
/// starts over at zero.
proof fn lemma_step_boundary_deep(s: AccountingSnapshot, t: u64, p: DecayParameters)
    requires
        p.wf(),
        t < u64::MAX,
        s.updated_at <= t,
        periods_elapsed(s, t, p) >= 1,
        periods_elapsed(s, (t + 1) as u64, p) == periods_elapsed(s, t, p) + 1,
    ensures
        read_model(s, (t + 1) as u64, p) - read_model(s, t, p) <= (s.value as int * pow2(
            p.frac_bits as nat,
        )) / (2 * (p.half_life as int)) + 8,
        read_model(s, t, p) - read_model(s, (t + 1) as u64, p) <= accumulated_decayed(s, t, p) / (
        2 * (p.half_life as int)) + (s.value as int * pow2(p.frac_bits as nat)) / pow2(20) as int
            + 8,
{
    let t2 = (t + 1) as u64;
    let hl = p.half_life as int;
    let fb = p.frac_bits as nat;
    let vv = s.value as int;
    let at = s.updated_at as int;
    let dt = s.decayed_total as int;
    let ct = s.current_total as int;
    let vpp = vv * pow2(fb);
    let eff1 = t as int;
    let eff2 = t as int + 1;
    let m0 = at % hl;
    let m1 = eff1 % hl;
    let m2 = eff2 % hl;
    let sd1 = periods_elapsed(s, t, p);
    let sd2 = sd1 + 1;
    lemma_mul_inequality(0, vv, pow2(fb) as int);
    lemma_pow2_pos(fb);
    lemma_pow2_pos(20);
    lemma_div_pos_is_pos(vpp, pow2(20) as int);
    lemma_div_pos_is_pos(vpp, hl);
    lemma_mod_division_less_than_divisor(eff1, hl);
    lemma_mod_division_less_than_divisor(eff2, hl);
    lemma_mod_division_less_than_divisor(at, hl);
    lemma_fundamental_div_mod(eff1, hl);
    lemma_fundamental_div_mod(eff2, hl);
    // The step lands exactly on the boundary.
    assert(eff2 / hl == eff1 / hl + 1);
    lemma_mul_is_distributive_add(hl, eff1 / hl, 1);
    assert(m1 == hl - 1 && m2 == 0);
    // One level deeper of decay is one more exact halving of each term.
    let fd1 = pow2(sd1 as nat) as int;
    lemma_pow2_pos(sd1 as nat);
    lemma_pow2_adds(sd1 as nat, 1);
    lemma2_to64();
    assert(pow2(sd2 as nat) == fd1 * 2);
    let a1 = dt / fd1;
    let c1 = ct / fd1;
    let tail = rate_contrib(vv, hl - m0, hl, fb);
    lemma_rate_contrib_bound(vv, hl - m0, hl, fb);
    let tl1 = tail / fd1;
    lemma_div_pos_is_pos(dt, fd1);
    lemma_div_pos_is_pos(ct, fd1);
    lemma_div_pos_is_pos(tail, fd1);
    lemma_div_denominator(dt, fd1, 2);
    lemma_div_denominator(ct, fd1, 2);
    lemma_div_denominator(tail, fd1, 2);
    let aa1 = accumulated_decayed(s, t, p);
    let aa2 = accumulated_decayed(s, t2, p);
    let tc1 = if sd1 >= 2 {
        table_contrib(vv, sd1, fb)
    } else {
        0int
    };
    let tc2 = table_contrib(vv, sd2, fb);
    assert(aa1 == a1 + c1 + tl1 + tc1);
    assert(aa2 == a1 / 2 + c1 / 2 + tl1 / 2 + tc2);
    // The table term follows its recurrence: half of itself plus half the
    // rate, within a rounding unit and the saturation tail.
    if sd1 == 1 {
        lemma_table_contrib_first(vv, fb);
    } else {
        lemma_table_contrib_step(vv, sd1 - 1 + 1, fb);
    }
    assert(tc1 / 2 + vpp / 2 - vpp / pow2(20) as int - 1 <= tc2 <= tc1 / 2 + vpp / 2 + 1);
    // Halving the four terms separately stays within two units of halving
    // their sum.
    if sd1 >= 2 {
        assert(0 <= vv * full_sum_scaled(table_index(sd1)) * pow2(fb)) by (nonlinear_arith)
            requires
                0 <= vv,
                0 <= full_sum_scaled(table_index(sd1)),
                0 <= pow2(fb),
        ;
        lemma_pow2_strictly_increases((19 - table_index(sd1)) as nat, 20);
        lemma_div_pos_is_pos(vv * full_sum_scaled(table_index(sd1)) * pow2(fb), pow2(20) as int);
    }
    lemma_floor_half_sum(a1, c1);
    lemma_floor_half_sum_lower(a1, c1);
    lemma_floor_half_sum(a1 + c1, tl1);
    lemma_floor_half_sum_lower(a1 + c1, tl1);
    lemma_floor_half_sum(a1 + c1 + tl1, tc1);
    lemma_floor_half_sum_lower(a1 + c1 + tl1, tc1);
    assert(aa1 / 2 + vpp / 2 - vpp / pow2(20) as int - 4 <= aa2 <= aa1 / 2 + vpp / 2 + 1);
    // The finished window's current total sits one tick short of the full
    // rate; the new window starts empty.
    lemma_rate_contrib_full(vv, hl, fb);
    lemma_rate_contrib_step(vv, hl - 1, hl, fb);
    let cc1 = accumulated_current(s, t, p);
    assert(cc1 == rate_contrib(vv, m1, hl, fb));
    assert(vpp - (vpp / hl + 1) <= cc1 <= vpp);
    lemma_div_is_ordered(cc1, vpp, 2);
    lemma_div_is_ordered(vpp - (vpp / hl + 1), cc1, 2);
    lemma_div_step_upper(vpp, vpp / hl + 1, 2);
    lemma_sum_div_upper(vpp / hl, 1, 2);
    lemma_div_denominator(vpp, hl, 2);
    assert(vpp / 2 - vpp / (2 * hl) - 2 <= cc1 / 2 <= vpp / 2);
    lemma_div_of0(hl);
    assert(accumulated_current(s, t2, p) == 0);
    // After the step the blend at offset zero hands the decayed total
    // through unchanged.
    lemma_accumulated_nonneg(s, t2, p);
    lemma_blend_at_offset_zero(aa2, hl);
    assert(read_model(s, t2, p) == aa2);
    // Before the step the blend keeps between half the decayed total and
    // half plus its weight over twice the half-life.
    lemma_accumulated_nonneg(s, t, p);
    lemma_blend_before_boundary(aa1, hl);
    lemma_mul_inequality(hl, 2 * hl - m1, aa1);
    lemma_mul_is_commutative(aa1, 2 * hl - m1);
    lemma_mul_is_commutative(aa1, hl);
    lemma_div_is_ordered(aa1 * hl, aa1 * (2 * hl - m1), 2 * hl);
    lemma_mul_inequality(0, aa1, hl);
    lemma_div_denominator(aa1 * hl, hl, 2);
    lemma_div_by_multiple(aa1, hl);
    assert(aa1 / 2 <= (aa1 * (2 * hl - m1)) / (2 * hl) <= aa1 / 2 + aa1 / (2 * hl) + 1);
    assert(read_model(s, t, p) == (aa1 * (2 * hl - m1)) / (2 * hl) + cc1 / 2);
}

/// Continuity at boundaries: one unit of time never moves the reading by
/// more than the signal's own per-tick drift — upward by at most the rate
/// over twice the half-life, downward by at most the decayed total over
/// twice the half-life plus the saturated table's tail of the rate over
/// `2^20` — plus a few rounding units.  The bound is one and the same
/// whether or not the step crosses a half-life boundary: the blend hands
/// over without a jump.
pub proof fn lemma_step_continuity(s: AccountingSnapshot, t: u64, p: DecayParameters)
    requires
        p.wf(),
        t < u64::MAX,
    ensures
        read_model(s, (t + 1) as u64, p) - read_model(s, t, p) <= (s.value as int * pow2(
            p.frac_bits as nat,
        )) / (2 * (p.half_life as int)) + 8,
        read_model(s, t, p) - read_model(s, (t + 1) as u64, p) <= accumulated_decayed(s, t, p) / (
        2 * (p.half_life as int)) + (s.value as int * pow2(p.frac_bits as nat)) / pow2(20) as int
            + 8,
{
    let t2 = (t + 1) as u64;
    let hl = p.half_life as int;
    let vpp = s.value as int * pow2(p.frac_bits as nat);
    lemma_mul_inequality(0, s.value as int, pow2(p.frac_bits as nat) as int);
    lemma_pow2_pos(p.frac_bits as nat);
    lemma_pow2_pos(20);
    lemma_div_pos_is_pos(vpp, pow2(20) as int);
    lemma_div_pos_is_pos(vpp, 2 * hl);
    lemma_accumulated_nonneg(s, t, p);
    lemma_div_pos_is_pos(accumulated_decayed(s, t, p), 2 * hl);
    if t < s.updated_at {
        // Both queries clamp to the capture time and read alike.
        assert(effective_now(s, t) == effective_now(s, t2));
    } else {
        let eff1 = t as int;
        let eff2 = t as int + 1;
        lemma_div_is_ordered(s.updated_at as int, eff1, hl);
        lemma_div_is_ordered(eff1, eff2, hl);
        lemma_div_plus_one(eff1, hl);
        lemma_div_is_ordered(eff2, hl + eff1, hl);
        if periods_elapsed(s, t2, p) == periods_elapsed(s, t, p) {
            lemma_step_same_window(s, t, p);
        } else {
            assert(periods_elapsed(s, t2, p) == periods_elapsed(s, t, p) + 1);
            if periods_elapsed(s, t, p) == 0 {
                lemma_step_boundary_fresh(s, t, p);
            } else {
                lemma_step_boundary_deep(s, t, p);
            }
        }
    }
}

} // verus!
