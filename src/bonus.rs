//! The turn-dependent bonus schedules of the scoring heuristics.
use vstd::prelude::*;

verus! {

pub open spec fn power(b: int, e: nat) -> int
    decreases e,
{
    if e == 0 {
        1
    } else {
        b * power(b, (e - 1) as nat)
    }
}

proof fn lemma_power_grows(b: int, e: nat, f: nat)
    requires
        b >= 1,
        e <= f,
    ensures
        1 <= power(b, e) <= power(b, f),
    decreases f,
{
    if f > e {
        lemma_power_grows(b, e, (f - 1) as nat);
        assert(power(b, (f - 1) as nat) <= b * power(b, (f - 1) as nat)) by (nonlinear_arith)
            requires
                b >= 1,
                power(b, (f - 1) as nat) >= 1,
        ;
    } else if e > 0 {
        lemma_power_grows(b, (e - 1) as nat, (e - 1) as nat);
        assert(1 <= b * power(b, (e - 1) as nat)) by (nonlinear_arith)
            requires
                b >= 1,
                power(b, (e - 1) as nat) >= 1,
        ;
    }
}

/// `b` to the power `e`, or `None` where that passes `u128::MAX`.
fn checked_power(b: u128, e: usize) -> (r: Option<u128>)
    requires
        b >= 1,
    ensures
        r matches Some(v) ==> v == power(b as int, e as nat),
        r is None ==> power(b as int, e as nat) > u128::MAX,
{
    let mut acc: u128 = 1;
    let mut i: usize = 0;
    while i < e
        invariant
            b >= 1,
            i <= e,
            acc == power(b as int, i as nat),
        decreases e - i,
    {
        assert(acc * b == b * acc) by (nonlinear_arith);
        match acc.checked_mul(b) {
            None => {
                proof {
                    lemma_power_grows(b as int, (i + 1) as nat, e as nat);
                }
                return None;
            },
            Some(v) => {
                acc = v;
            },
        }
        i = i + 1;
    }
    Some(acc)
}

/// `b` is at most 36 * 2^(-0.15 * turn): b^20 * 8^turn <= 36^20.
pub open spec fn decay_fits(b: int, turn: int) -> bool {
    power(b, 20) * power(8, turn as nat) <= power(36, 20)
}

/// The greatest value from `b` down, above 4, that `decay_fits`; else 4.
pub open spec fn largest_fit(b: int, turn: int) -> int
    decreases b,
{
    if b <= 4 {
        4
    } else if decay_fits(b, turn) {
        b
    } else {
        largest_fit(b - 1, turn)
    }
}

/// The distance bonus at the start of turn `turn`:
/// max(4, floor(36 * 2^(-0.15 * turn))).
pub open spec fn start_bonus(turn: int) -> int {
    largest_fit(36, turn)
}

pub fn decay_start(turn: usize) -> (r: i128)
    ensures
        r == start_bonus(turn as int),
        4 <= r <= 36,
{
    proof {
        reveal_with_fuel(power, 21);
    }
    assert(power(36, 20) == 13367494538843734067838845976576);
    let lim: u128 = 13367494538843734067838845976576;
    let tp = checked_power(8, turn);
    let mut b: u128 = 36;
    while b > 4
        invariant
            4 <= b <= 36,
            lim == power(36, 20),
            tp matches Some(v) ==> v == power(8, turn as nat),
            tp is None ==> power(8, turn as nat) > u128::MAX,
            largest_fit(b as int, turn as int) == largest_fit(36, turn as int),
        decreases b,
    {
        let bp = checked_power(b, 20);
        proof {
            lemma_power_grows(b as int, 0, 20);
            lemma_power_grows(8, 0, turn as nat);
        }
        let fits = match tp {
            None => {
                assert(power(b as int, 20) * power(8, turn as nat) > u128::MAX) by (nonlinear_arith)
                    requires
                        power(b as int, 20) >= 1,
                        power(8, turn as nat) > u128::MAX,
                ;
                false
            },
            Some(t) => match bp {
                None => {
                    assert(power(b as int, 20) * power(8, turn as nat) > u128::MAX) by (nonlinear_arith)
                        requires
                            power(b as int, 20) > u128::MAX,
                            power(8, turn as nat) >= 1,
                    ;
                    false
                },
                Some(p) => match p.checked_mul(t) {
                    None => false,
                    Some(v) => v <= lim,
                },
            },
        };
        if fits {
            return b as i128;
        }
        b = b - 1;
    }
    4
}

/// The bonus of the candidate at rank `r` when the best one gets `b`: the
/// bonus halves from rank to rank and ends where it would drop to 1.
pub open spec fn tier(b: int, r: int) -> int
    decreases r,
{
    if b <= 1 {
        0
    } else if r <= 0 {
        b
    } else {
        tier(b / 2, r - 1)
    }
}

/// Ranks from `k` on get nothing when `b` is below `2^k`.
pub proof fn lemma_tier_vanishes(b: int, r: int, k: nat)
    requires
        0 <= b < power(2, k),
        r >= k,
    ensures
        tier(b, r) == 0,
    decreases r,
{
    if b > 1 {
        if k == 0 {
            assert(power(2, 0) == 1);
        } else {
            assert(power(2, k) == 2 * power(2, (k - 1) as nat));
            lemma_tier_vanishes(b / 2, r - 1, (k - 1) as nat);
        }
    }
}

pub fn tier_bonus(b: i128, r: usize) -> (v: i128)
    requires
        0 <= b <= 36,
    ensures
        v == tier(b as int, r as int),
        0 <= v <= b,
{
    let mut cur = b;
    let mut i: usize = 0;
    while i < r
        invariant
            0 <= cur <= b <= 36,
            i <= r,
            tier(cur as int, r - i) == tier(b as int, r as int),
        decreases r - i,
    {
        if cur <= 1 {
            return 0;
        }
        cur = cur / 2;
        i = i + 1;
    }
    if cur <= 1 {
        0
    } else {
        cur
    }
}

/// Fixed-point scale of the growth schedule: nine decimal digits.
pub const GROWTH_SCALE: u64 = 1_000_000_000;

/// The gap-filling bonus never passes this.
pub const GROWTH_CAP: u64 = 50;

/// 1.07^turn in fixed point with nine decimals, rounded down at each
/// step, and held at 50 once it gets there.
pub open spec fn growth_fixed(turn: nat) -> int
    decreases turn,
{
    if turn == 0 {
        GROWTH_SCALE as int
    } else {
        let v = growth_fixed((turn - 1) as nat) * 107 / 100;
        if v > GROWTH_CAP * GROWTH_SCALE {
            GROWTH_CAP * GROWTH_SCALE
        } else {
            v
        }
    }
}

/// The gap-filling bonus of turn `turn`: min(50, floor(1.07^turn)).
pub open spec fn growth_bonus(turn: nat) -> int {
    growth_fixed(turn) / GROWTH_SCALE as int
}

pub proof fn lemma_growth_range(turn: nat)
    ensures
        GROWTH_SCALE <= growth_fixed(turn) <= GROWTH_CAP * GROWTH_SCALE,
    decreases turn,
{
    if turn > 0 {
        lemma_growth_range((turn - 1) as nat);
    }
}

proof fn lemma_growth_held(k: nat, turn: nat)
    requires
        k <= turn,
        growth_fixed(k) == GROWTH_CAP * GROWTH_SCALE,
    ensures
        growth_fixed(turn) == GROWTH_CAP * GROWTH_SCALE,
    decreases turn,
{
    if turn > k {
        lemma_growth_held(k, (turn - 1) as nat);
    }
}

pub fn growth_start(turn: usize) -> (r: i128)
    ensures
        r == growth_bonus(turn as nat),
        1 <= r <= 50,
{
    let cap: u64 = GROWTH_CAP * GROWTH_SCALE;
    let mut v: u64 = GROWTH_SCALE;
    let mut i: usize = 0;
    while i < turn && v < cap
        invariant
            i <= turn,
            cap == GROWTH_CAP * GROWTH_SCALE,
            v == growth_fixed(i as nat),
        decreases turn - i,
    {
        proof {
            lemma_growth_range(i as nat);
        }
        let next = v * 107 / 100;
        v = if next > cap {
            cap
        } else {
            next
        };
        i = i + 1;
    }
    proof {
        lemma_growth_range(i as nat);
        if i < turn {
            lemma_growth_held(i as nat, turn as nat);
        }
    }
    (v / GROWTH_SCALE) as i128
}

} // verus!
