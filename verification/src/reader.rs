//! The decaying-average reader: data model, specification model, and the
//! executable fixed-point implementation.

use vstd::prelude::*;

verus! {

use vstd::arithmetic::div_mod::{
    lemma_basic_div,
    lemma_div_is_ordered,
    lemma_div_nonincreasing,
    lemma_fundamental_div_mod,
    lemma_mod_division_less_than_divisor,
    lemma_multiply_divide_le,
};
use vstd::arithmetic::mul::{lemma_mul_inequality, lemma_mul_is_commutative, lemma_mul_upper_bound};
use vstd::arithmetic::power2::{
    pow2,
    lemma_pow2_adds,
    lemma_pow2_pos,
    lemma_pow2_strictly_increases,
    lemma_pow2_unfold,
    lemma2_to64,
};

/// Number of entries in the cumulative decay-sum table.
pub const TABLE_LEN: u64 = 20;

/// Scale of the decay-sum table entries: each entry is a fraction of one,
/// stored as an integer numerator over `2^20`.
pub const TABLE_SCALE: u64 = 0x100000;

/// An immutable point-in-time copy of the accounting state maintained by the
/// external load tracker.  `decayed_total` and `current_total` are fixed-point
/// quantities scaled by `2^frac_bits`.
#[derive(Clone, Copy, Debug)]
pub struct AccountingSnapshot {
    /// Instantaneous rate contributed each unit of time since `updated_at`.
    pub value: u64,
    /// Time the snapshot was captured.
    pub updated_at: u64,
    /// Accumulated, decayed contribution from all periods strictly before the
    /// current half-life window, scaled by `2^frac_bits`.
    pub decayed_total: u64,
    /// Accumulated contribution within the current half-life window, scaled
    /// by `2^frac_bits`.
    pub current_total: u64,
}

/// Configuration of the decay scheme, constant for a scheduler instance.
#[derive(Clone, Copy, Debug)]
pub struct DecayParameters {
    /// The decay period: after one half-life, past contribution weight halves.
    pub half_life: u32,
    /// Number of fractional bits of the fixed-point totals.
    pub frac_bits: u32,
}

impl DecayParameters {
    /// A usable configuration: a positive decay period, and a fixed-point
    /// scale small enough that every intermediate product fits in 128 bits.
    pub open spec fn wf(self) -> bool {
        &&& self.half_life > 0
        &&& self.frac_bits <= 20
    }
}

/// The query time actually used by the reader: a query older than the
/// snapshot is clamped up to the snapshot's own capture time, so elapsed
/// time is never negative.
pub open spec fn effective_now(s: AccountingSnapshot, now: u64) -> int {
    if now >= s.updated_at {
        now as int
    } else {
        s.updated_at as int
    }
}

/// How many half-life boundaries lie between the snapshot's capture time and
/// the (clamped) query time.  Never negative.
pub open spec fn periods_elapsed(s: AccountingSnapshot, now: u64, p: DecayParameters) -> int
    recommends
        p.half_life > 0,
{
    effective_now(s, now) / (p.half_life as int) - (s.updated_at as int) / (p.half_life as int)
}

/// Index into the decay-sum table for a crossing of `sd >= 2` boundaries;
/// saturates at the last entry.
pub open spec fn table_index(sd: int) -> int {
    if sd - 2 < TABLE_LEN - 1 {
        sd - 2
    } else {
        TABLE_LEN - 1
    }
}

/// Entry `i` of the cumulative decay-sum table, scaled by `2^20`: the
/// partial geometric sum `2^-1 + ... + 2^-(i+1)`, that is `1 - 2^-(i+1)`.
pub open spec fn full_sum_scaled(i: int) -> int
    recommends
        0 <= i < TABLE_LEN,
{
    pow2(20) - pow2((19 - i) as nat)
}

/// Fixed-point contribution of rate `value` held for `dur` out of `hl` time
/// units, scaled by `2^fb` and rounded down.
pub open spec fn rate_contrib(value: int, dur: int, hl: int, fb: nat) -> int
    recommends
        hl > 0,
{
    (value * dur * pow2(fb)) / hl
}

/// `x` decayed across `sd` half-life boundaries: halved `sd` times, rounding
/// down.
pub open spec fn decayed_by(x: int, sd: nat) -> int {
    x / pow2(sd) as int
}

/// Fixed-point contribution of the `sd - 1` full half-life windows between
/// the snapshot's window and the current one, taken from the decay-sum table.
pub open spec fn table_contrib(value: int, sd: int, fb: nat) -> int
    recommends
        sd >= 2,
{
    (value * full_sum_scaled(table_index(sd)) * pow2(fb)) / pow2(20) as int
}

/// The decayed total after folding the elapsed boundaries into it, scaled by
/// `2^frac_bits`.  With no boundary crossed it is untouched; otherwise the
/// previous window's totals are decayed and folded, then the partial tail of
/// the originating window and the full intermediate windows are added.
pub open spec fn accumulated_decayed(s: AccountingSnapshot, now: u64, p: DecayParameters) -> int
    recommends
        p.half_life > 0,
{
    let hl = p.half_life as int;
    let fb = p.frac_bits as nat;
    let sd = periods_elapsed(s, now, p);
    if sd <= 0 {
        s.decayed_total as int
    } else {
        decayed_by(s.decayed_total as int, sd as nat) + decayed_by(s.current_total as int, sd as nat)
            + decayed_by(
            rate_contrib(s.value as int, hl - (s.updated_at as int) % hl, hl, fb),
            sd as nat,
        ) + if sd >= 2 {
            table_contrib(s.value as int, sd, fb)
        } else {
            0
        }
    }
}

/// The current window's total after accounting the elapsed time, scaled by
/// `2^frac_bits`.  With no boundary crossed the whole elapsed duration lands
/// here; otherwise the window starts fresh with the elapsed part of the new
/// window.
pub open spec fn accumulated_current(s: AccountingSnapshot, now: u64, p: DecayParameters) -> int
    recommends
        p.half_life > 0,
{
    let hl = p.half_life as int;
    let fb = p.frac_bits as nat;
    let eff = effective_now(s, now);
    let sd = periods_elapsed(s, now, p);
    if sd <= 0 {
        s.current_total as int + rate_contrib(s.value as int, eff - s.updated_at as int, hl, fb)
    } else {
        rate_contrib(s.value as int, eff % hl, hl, fb)
    }
}

/// The value the reader returns, scaled by `2^frac_bits`: the two
/// accumulated totals blended at the midpoint of the current window,
/// `decayed * (1 - m / (2 * hl)) + current / 2` with `m` the time already
/// spent inside the current window, all in exact fixed point rounded down.
pub open spec fn read_model(s: AccountingSnapshot, now: u64, p: DecayParameters) -> int
    recommends
        p.half_life > 0,
{
    let hl = p.half_life as int;
    let m = effective_now(s, now) % hl;
    (accumulated_decayed(s, now, p) * (2 * hl - m)) / (2 * hl) + accumulated_current(s, now, p)
        / 2
}

/// The cumulative decay-sum table: entry `idx` is `1 - 2^-(idx + 1)` scaled
/// by `2^20`, the weight of `idx + 1` consecutive fully decayed windows.
/// A precomputed lookup so the hot path never recomputes powers of two.
pub fn full_sum_entry(idx: u64) -> (r: u64)
    requires
        idx < TABLE_LEN,
    ensures
        r as int == full_sum_scaled(idx as int),
        r < TABLE_SCALE,
{
    proof {
        lemma2_to64();
    }
    if idx == 0 {
        524288
    } else if idx == 1 {
        786432
    } else if idx == 2 {
        917504
    } else if idx == 3 {
        983040
    } else if idx == 4 {
        1015808
    } else if idx == 5 {
        1032192
    } else if idx == 6 {
        1040384
    } else if idx == 7 {
        1044480
    } else if idx == 8 {
        1046528
    } else if idx == 9 {
        1047552
    } else if idx == 10 {
        1048064
    } else if idx == 11 {
        1048320
    } else if idx == 12 {
        1048448
    } else if idx == 13 {
        1048512
    } else if idx == 14 {
        1048544
    } else if idx == 15 {
        1048560
    } else if idx == 16 {
        1048568
    } else if idx == 17 {
        1048572
    } else if idx == 18 {
        1048574
    } else {
        1048575
    }
}

/// Computes `2^e` exactly.
pub fn pow2_u128(e: u32) -> (r: u128)
    requires
        e < 128,
    ensures
        r as int == pow2(e as nat),
{
    proof {
        vstd::arithmetic::power2::lemma2_to64();
    }
    let mut r: u128 = 1;
    let mut i: u32 = 0;
    while i < e
        invariant
            i <= e < 128,
            r as int == pow2(i as nat),
        decreases e - i,
    {
        proof {
            lemma_pow2_unfold((i + 1) as nat);
            lemma_pow2_strictly_increases((i + 1) as nat, 128);
            lemma_pow2_adds(64, 64);
            lemma2_to64();
            assert(pow2(128) == 0x10000000000000000 * 0x10000000000000000);
        }
        r = r * 2;
        i = i + 1;
    }
    r
}

/// Greatest value either fixed-point accumulator can reach during a read:
/// every intermediate total stays at or under `u64::MAX * 2^20`.
pub open spec fn acc_bound() -> int {
    (u64::MAX as int) * (TABLE_SCALE as int)
}

/// Fixed-point contribution of rate `value` held for `dur` out of `hl` time
/// units: `value * (dur / hl)` scaled by `2^fb`, rounded down.
fn rate_part(value: u64, dur: u64, hl: u64, fb: u32) -> (r: u128)
    requires
        0 < hl <= u32::MAX,
        dur <= hl,
        fb <= 20,
    ensures
        r as int == rate_contrib(value as int, dur as int, hl as int, fb as nat),
        r as int <= acc_bound(),
{
    let p = pow2_u128(fb);
    proof {
        lemma2_to64();
        if fb < 20 {
            lemma_pow2_strictly_increases(fb as nat, 20);
        }
        lemma_mul_upper_bound(value as int, u64::MAX as int, dur as int, u32::MAX as int);
        lemma_mul_upper_bound(
            (value as int) * (dur as int),
            (u64::MAX as int) * (u32::MAX as int),
            p as int,
            0x100000,
        );
        assert((value as int) * (dur as int) * (p as int) <= (hl as int) * ((value as int) * (
        p as int))) by (nonlinear_arith)
            requires
                0 <= (value as int),
                0 <= (p as int),
                0 <= (dur as int) <= (hl as int),
        ;
    }
    let prod: u128 = (value as u128) * (dur as u128) * p;
    let r = prod / (hl as u128);
    proof {
        lemma_multiply_divide_le(prod as int, hl as int, (value as int) * (p as int));
        lemma_mul_upper_bound(value as int, u64::MAX as int, p as int, TABLE_SCALE as int);
    }
    r
}

/// Fixed-point contribution of the full intermediate windows: `value` times
/// decay-sum table entry `idx`, scaled by `2^fb`, rounded down.
fn table_part(value: u64, idx: u64, fb: u32) -> (r: u128)
    requires
        idx < TABLE_LEN,
        fb <= 20,
    ensures
        r as int == (value as int * full_sum_scaled(idx as int) * pow2(fb as nat)) / pow2(20)
            as int,
        r as int <= acc_bound(),
{
    let fs = full_sum_entry(idx);
    let p = pow2_u128(fb);
    proof {
        lemma2_to64();
        if fb < 20 {
            lemma_pow2_strictly_increases(fb as nat, 20);
        }
        lemma_mul_upper_bound(value as int, u64::MAX as int, fs as int, 0x100000);
        lemma_mul_upper_bound(
            (value as int) * (fs as int),
            (u64::MAX as int) * 0x100000,
            p as int,
            0x100000,
        );
        assert((value as int) * (fs as int) * (p as int) <= 0x100000 * ((value as int) * (p
            as int))) by (nonlinear_arith)
            requires
                0 <= (value as int),
                0 <= (p as int),
                0 <= (fs as int) <= 0x100000,
        ;
    }
    let prod: u128 = (value as u128) * (fs as u128) * p;
    let r = prod / (TABLE_SCALE as u128);
    proof {
        lemma_multiply_divide_le(prod as int, TABLE_SCALE as int, (value as int) * (p as int));
        lemma_mul_upper_bound(value as int, u64::MAX as int, p as int, TABLE_SCALE as int);
    }
    r
}

/// `x` halved `sd` times, rounding down: division by `2^sd`, with the
/// quotient pinned to zero once the divisor outgrows every 128-bit value.
fn shift_down(x: u128, sd: u64) -> (r: u128)
    ensures
        r as int == decayed_by(x as int, sd as nat),
        r <= x,
{
    proof {
        lemma_pow2_pos(sd as nat);
    }
    if sd >= 128 {
        proof {
            lemma_pow2_adds(64, 64);
            lemma2_to64();
            if sd > 128 {
                lemma_pow2_strictly_increases(128, sd as nat);
            }
            lemma_basic_div(x as int, pow2(sd as nat) as int);
        }
        0
    } else {
        let d = pow2_u128(sd as u32);
        proof {
            lemma_div_nonincreasing(x as int, d as int);
        }
        x / d
    }
}

impl AccountingSnapshot {
    /// Reads the current decay-weighted average at time `now` under `params`:
    /// the boundaries crossed since `updated_at` are folded into the decayed
    /// total, the elapsed part of the current window is accumulated, and the
    /// two are blended at the midpoint of the current window.  The result is
    /// scaled by `2^frac_bits`, exactly as [`read_model`] states; a `now`
    /// earlier than `updated_at` is clamped up to `updated_at`.
    pub fn read(&self, now: u64, params: &DecayParameters) -> (r: u128)
        requires
            params.wf(),
        ensures
            r as int == read_model(*self, now, *params),
    {
        let hl: u64 = params.half_life as u64;
        let fb: u32 = params.frac_bits;
        let eff: u64 = if now >= self.updated_at {
            now
        } else {
            self.updated_at
        };
        let cur_seq: u64 = eff / hl;
        let val_seq: u64 = self.updated_at / hl;
        proof {
            lemma_div_is_ordered(self.updated_at as int, eff as int, hl as int);
        }
        let sd: u64 = cur_seq - val_seq;
        let ghost snap = *self;
        let ghost prm = *params;
        proof {
            assert(eff as int == effective_now(snap, now));
            assert(sd as int == periods_elapsed(snap, now, prm));
        }
        let decayed: u128;
        let current: u128;
        if sd > 0 {
            let m0: u64 = self.updated_at % hl;
            proof {
                lemma_mod_division_less_than_divisor(self.updated_at as int, hl as int);
            }
            let tail = rate_part(self.value, hl - m0, hl, fb);
            let mut acc: u128 = shift_down(self.decayed_total as u128, sd) + shift_down(
                self.current_total as u128,
                sd,
            ) + shift_down(tail, sd);
            if sd >= 2 {
                let idx: u64 = if sd - 2 < TABLE_LEN - 1 {
                    sd - 2
                } else {
                    TABLE_LEN - 1
                };
                proof {
                    assert(idx as int == table_index(sd as int));
                }
                acc = acc + table_part(self.value, idx, fb);
            }
            decayed = acc;
            let m_new: u64 = eff % hl;
            proof {
                lemma_mod_division_less_than_divisor(eff as int, hl as int);
            }
            current = rate_part(self.value, m_new, hl, fb);
            proof {
                assert(decayed as int == accumulated_decayed(snap, now, prm));
                assert(current as int == accumulated_current(snap, now, prm));
            }
        } else {
            proof {
                lemma_fundamental_div_mod(eff as int, hl as int);
                lemma_fundamental_div_mod(self.updated_at as int, hl as int);
                lemma_mod_division_less_than_divisor(eff as int, hl as int);
                lemma_mod_division_less_than_divisor(self.updated_at as int, hl as int);
                assert(eff - self.updated_at < hl);
            }
            decayed = self.decayed_total as u128;
            current = self.current_total as u128 + rate_part(
                self.value,
                eff - self.updated_at,
                hl,
                fb,
            );
            proof {
                assert(decayed as int == accumulated_decayed(snap, now, prm));
                assert(current as int == accumulated_current(snap, now, prm));
            }
        }
        let m: u64 = eff % hl;
        let twice_hl: u128 = 2 * (hl as u128);
        proof {
            lemma_mod_division_less_than_divisor(eff as int, hl as int);
            lemma_mul_upper_bound(
                decayed as int,
                4 * acc_bound(),
                twice_hl as int - m as int,
                2 * (u32::MAX as int),
            );
            lemma_mul_inequality(
                twice_hl as int - m as int,
                twice_hl as int,
                decayed as int,
            );
            lemma_mul_is_commutative(decayed as int, twice_hl as int - m as int);
            lemma_multiply_divide_le(
                (decayed as int) * (twice_hl as int - m as int),
                twice_hl as int,
                decayed as int,
            );
        }
        let blended: u128 = (decayed * (twice_hl - (m as u128))) / twice_hl + current / 2;
        proof {
            assert(blended as int == read_model(snap, now, prm));
        }
        blended
    }
}

/// Reads the running average at `now` of the accounting fields `val`,
/// `val_at`, `old_total`, `cur_total`, given `half_life` and `frac_bits`:
/// the same reader as [`AccountingSnapshot::read`], taking the snapshot's
/// fields as separate arguments for callers that hold them unbundled.
pub fn ravg_read(
    val: u64,
    val_at: u64,
    old_total: u64,
    cur_total: u64,
    now: u64,
    half_life: u32,
    frac_bits: u32,
) -> (r: u128)
    requires
        half_life > 0,
        frac_bits <= 20,
    ensures
        r as int == read_model(
            (AccountingSnapshot {
                value: val,
                updated_at: val_at,
                decayed_total: old_total,
                current_total: cur_total,
            }),
            now,
            (DecayParameters { half_life, frac_bits }),
        ),
{
    let snapshot = AccountingSnapshot {
        value: val,
        updated_at: val_at,
        decayed_total: old_total,
        current_total: cur_total,
    };
    let params = DecayParameters { half_life, frac_bits };
    snapshot.read(now, &params)
}

} // verus!
