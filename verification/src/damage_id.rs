//! Damage-id composition.
//!
//! A damage id is the decimal concatenation `damage_type ‖ skill_effect_id ‖
//! hit_event_id`, the hit-event part at least two digits wide, read back as a
//! signed 64-bit integer; a concatenation that does not fit (or a negative
//! skill-effect id, whose sign would sit inside the numeral) yields 0. The
//! damage type is `2` for a positive damage source equal to 2, `3` for any
//! other positive source, and `1` otherwise, in which case the skill-effect
//! id is resolved through the skill-level table at `owner_id * 100 +
//! owner_level`, falling back to level 1, then to `owner_id` itself.

use vstd::arithmetic::div_mod::{lemma_fundamental_div_mod, lemma_fundamental_div_mod_converse_div};
use vstd::prelude::*;

use crate::kvmap::KvMap;

verus! {

/// `10^k`.
pub open spec fn pow10(k: nat) -> int
    decreases k,
{
    if k == 0 {
        1
    } else {
        10 * pow10((k - 1) as nat)
    }
}

/// How many decimal digits the numeral of `n >= 0` has.
pub open spec fn dec_len(n: int) -> nat
    decreases n,
{
    if n < 10 {
        1
    } else {
        (1 + dec_len(n / 10)) as nat
    }
}

/// The number whose numeral is `digits(a) ‖ digits(b)`, with the second part
/// `width` digits wide.
pub open spec fn dec_concat(a: int, b: int, width: nat) -> int {
    a * pow10(width) + b
}

/// The composed damage id as a mathematical integer: the damage type, then
/// the skill-effect id, then the hit-event id padded to two digits.
pub open spec fn compose_id(damage_type: int, skill_effect_id: int, hit: int) -> int {
    dec_concat(
        dec_concat(damage_type, skill_effect_id, dec_len(skill_effect_id)),
        hit,
        if hit >= 10 {
            dec_len(hit)
        } else {
            2
        },
    )
}

/// The option's value, or 0.
pub open spec fn opt0(x: Option<i32>) -> int {
    match x {
        Some(v) => v as int,
        None => 0,
    }
}

/// `x`, clamped below at 0.
pub open spec fn max0(x: int) -> int {
    if x >= 0 {
        x
    } else {
        0
    }
}

/// Whether `x` fits an `i32`.
pub open spec fn in_i32(x: int) -> bool {
    i32::MIN <= x <= i32::MAX
}

/// Whether the damage source is present and positive.
pub open spec fn src_positive(damage_source: Option<i32>) -> bool {
    match damage_source {
        Some(s) => s > 0,
        None => false,
    }
}

/// The skill-effect id the table resolves for `(owner_id, owner_level)`:
/// the entry at `owner_id * 100 + owner_level`, else at `owner_id * 100 +
/// 1`, else `owner_id` clamped at 0. A key whose computation overflows an
/// `i32` falls back to `owner_id`.
pub open spec fn sp_effect_lookup(m: Map<i64, i64>, owner_id: int, owner_level: int) -> int {
    let k1: int = if in_i32(owner_id * 100 + owner_level) {
        owner_id * 100 + owner_level
    } else {
        owner_id
    };
    if m.contains_key(k1 as i64) {
        m[k1 as i64] as int
    } else {
        let k2: int = if in_i32(owner_id * 100 + 1) {
            owner_id * 100 + 1
        } else {
            owner_id
        };
        if m.contains_key(k2 as i64) {
            m[k2 as i64] as int
        } else {
            max0(owner_id)
        }
    }
}

/// What `compute_damage_id` returns, over the table's map view.
pub open spec fn sp_damage_id(
    m: Map<i64, i64>,
    damage_source: Option<i32>,
    owner_id: i32,
    owner_level: Option<i32>,
    hit_event_id: Option<i32>,
) -> int {
    let lvl = max0(opt0(owner_level));
    let hit = max0(opt0(hit_event_id));
    if src_positive(damage_source) {
        let dt: int = if damage_source == Some(2i32) {
            2
        } else {
            3
        };
        fit_or_zero(compose_id(dt, max0(owner_id as int), hit))
    } else {
        let seid = sp_effect_lookup(m, owner_id as int, lvl);
        if seid < 0 {
            0
        } else {
            fit_or_zero(compose_id(1, seid, hit))
        }
    }
}

/// The composed value where the numeral parses as an `i64`, else 0.
pub open spec fn fit_or_zero(v: int) -> int {
    if v <= i64::MAX {
        v
    } else {
        0
    }
}

proof fn lemma_pow10_pos(k: nat)
    ensures
        pow10(k) >= 1,
    decreases k,
{
    if k > 0 {
        lemma_pow10_pos((k - 1) as nat);
    }
}

proof fn lemma_pow10_mono(a: nat, b: nat)
    requires
        a <= b,
    ensures
        pow10(a) <= pow10(b),
    decreases b,
{
    if a < b {
        lemma_pow10_mono(a, (b - 1) as nat);
        lemma_pow10_pos((b - 1) as nat);
    }
}

/// The numeral of `n` is `dec_len(n)` digits: `n` sits under
/// `pow10(dec_len(n))`, and at or above `pow10(dec_len(n) - 1)` once `n >= 1`.
pub proof fn lemma_dec_len_bounds(n: int)
    requires
        n >= 0,
    ensures
        n < pow10(dec_len(n)),
        n >= 1 ==> pow10((dec_len(n) - 1) as nat) <= n,
        dec_len(n) >= 1,
    decreases n,
{
    if n < 10 {
        lemma_pow10_pos(dec_len(n));
    } else {
        let q = n / 10;
        lemma_fundamental_div_mod(n, 10);
        assert(q >= 1) by (nonlinear_arith)
            requires
                n >= 10,
                q == n / 10,
        ;
        lemma_dec_len_bounds(q);
        assert(n < 10 * pow10(dec_len(q))) by (nonlinear_arith)
            requires
                n == 10 * q + n % 10,
                n % 10 < 10,
                q < pow10(dec_len(q)),
        ;
        assert(10 * pow10((dec_len(q) - 1) as nat) <= n) by (nonlinear_arith)
            requires
                n == 10 * q + n % 10,
                n % 10 >= 0,
                pow10((dec_len(q) - 1) as nat) <= q,
        ;
    }
}

/// A number between two adjacent powers of ten has exactly `k + 1` digits.
pub proof fn lemma_dec_len_range(v: int, k: nat)
    requires
        pow10(k) <= v < pow10(k + 1),
    ensures
        dec_len(v) == k + 1,
    decreases k,
{
    lemma_pow10_pos(k);
    if k == 0 {
        assert(pow10(1) == 10);
    } else {
        assert(pow10(k + 1) == 10 * pow10(k));
        assert(pow10(k) == 10 * pow10((k - 1) as nat));
        assert(v >= 10);
        let q = v / 10;
        lemma_fundamental_div_mod(v, 10);
        assert(pow10((k - 1) as nat) <= q < pow10(k)) by (nonlinear_arith)
            requires
                v == 10 * q + v % 10,
                0 <= v % 10 < 10,
                10 * pow10((k - 1) as nat) <= v,
                v < 10 * pow10(k),
        ;
        lemma_dec_len_range(q, (k - 1) as nat);
    }
}

/// The leading decimal digit of `v >= 1`.
pub open spec fn leading_digit(v: int) -> int {
    v / pow10((dec_len(v) - 1) as nat)
}

/// The composed damage id begins with the damage-type digit: for a one-digit
/// damage type, a non-negative skill-effect id and a non-negative hit-event
/// id, the leading digit of the composition is the damage type itself.
pub proof fn lemma_compose_leading_digit(damage_type: int, skill_effect_id: int, hit: int)
    requires
        1 <= damage_type <= 9,
        skill_effect_id >= 0,
        hit >= 0,
    ensures
        leading_digit(compose_id(damage_type, skill_effect_id, hit)) == damage_type,
{
    let dls = dec_len(skill_effect_id);
    let hl: nat = if hit >= 10 {
        dec_len(hit)
    } else {
        2
    };
    let p1 = pow10(dls);
    let p2 = pow10(hl);
    lemma_pow10_pos(dls);
    lemma_pow10_pos(hl);
    lemma_dec_len_bounds(skill_effect_id);
    if hit >= 10 {
        lemma_dec_len_bounds(hit);
    } else {
        assert(pow10(2) == 100) by {
            reveal_with_fuel(pow10, 3);
        }
    }
    assert(hit < p2);
    let v = compose_id(damage_type, skill_effect_id, hit);
    let a = damage_type * p1 + skill_effect_id;
    assert(v == a * p2 + hit);
    // v = damage_type * (p1 * p2) + (skill_effect_id * p2 + hit), remainder below p1 * p2
    let rem = skill_effect_id * p2 + hit;
    assert(a * p2 == damage_type * (p1 * p2) + skill_effect_id * p2) by (nonlinear_arith)
        requires
            a == damage_type * p1 + skill_effect_id,
    ;
    assert(rem < p1 * p2) by (nonlinear_arith)
        requires
            rem == skill_effect_id * p2 + hit,
            skill_effect_id < p1,
            hit < p2,
            p2 >= 1,
            skill_effect_id >= 0,
    ;
    assert(rem >= 0) by (nonlinear_arith)
        requires
            rem == skill_effect_id * p2 + hit,
            skill_effect_id >= 0,
            hit >= 0,
            p2 >= 1,
    ;
    // pow10 sums: p1 * p2 == pow10(dls + hl)
    lemma_pow10_add(dls, hl);
    let k: nat = dls + hl;
    assert(v == damage_type * pow10(k) + rem);
    assert(pow10(k) <= v < pow10(k + 1)) by (nonlinear_arith)
        requires
            v == damage_type * pow10(k) + rem,
            1 <= damage_type <= 9,
            0 <= rem < pow10(k),
            pow10(k + 1) == 10 * pow10(k),
            pow10(k) >= 1,
    ;
    lemma_dec_len_range(v, k);
    lemma_fundamental_div_mod_converse_div(v, pow10(k), damage_type, rem);
}

proof fn lemma_pow10_add(a: nat, b: nat)
    ensures
        pow10(a + b) == pow10(a) * pow10(b),
    decreases a,
{
    if a == 0 {
    } else {
        lemma_pow10_add((a - 1) as nat, b);
        assert(pow10(a + b) == 10 * pow10((a - 1) as nat + b));
        assert(10 * (pow10((a - 1) as nat) * pow10(b)) == (10 * pow10((a - 1) as nat)) * pow10(b))
            by (nonlinear_arith);
    }
}

/// The composed damage id starts with `3` for any positive damage source
/// other than `2`, with `2` for source `2`, and with `1` otherwise — on
/// every input whose composition fits an `i64` (a composition that does not
/// fit, or a negative resolved skill-effect id, yields 0 instead).
pub proof fn lemma_damage_id_prefix(
    m: Map<i64, i64>,
    damage_source: Option<i32>,
    owner_id: i32,
    owner_level: Option<i32>,
    hit_event_id: Option<i32>,
)
    requires
        sp_damage_id(m, damage_source, owner_id, owner_level, hit_event_id) != 0,
    ensures
        leading_digit(sp_damage_id(m, damage_source, owner_id, owner_level, hit_event_id)) == (
        if src_positive(damage_source) {
            if damage_source == Some(2i32) {
                2int
            } else {
                3int
            }
        } else {
            1int
        }),
{
    let lvl = max0(opt0(owner_level));
    let hit = max0(opt0(hit_event_id));
    if src_positive(damage_source) {
        let dt: int = if damage_source == Some(2i32) {
            2
        } else {
            3
        };
        lemma_compose_leading_digit(dt, max0(owner_id as int), hit);
    } else {
        let seid = sp_effect_lookup(m, owner_id as int, lvl);
        lemma_compose_leading_digit(1, seid, hit);
    }
}

proof fn lemma_dec_len_at_most(n: int, k: nat)
    requires
        0 <= n < pow10(k),
        k >= 1,
    ensures
        dec_len(n) <= k,
    decreases k,
{
    lemma_dec_len_bounds(n);
    if dec_len(n) > k {
        lemma_pow10_mono(k, (dec_len(n) - 1) as nat);
    }
}

fn dec_len_exec(n: u64) -> (r: u32)
    ensures
        r == dec_len(n as int),
        1 <= r <= 20,
    decreases n,
{
    proof {
        assert(pow10(20) == 0x56bc75e2d63100000) by {
            reveal_with_fuel(pow10, 21);
        }
        lemma_dec_len_at_most(n as int, 20);
        lemma_dec_len_bounds(n as int);
    }
    if n < 10 {
        1
    } else {
        1 + dec_len_exec(n / 10)
    }
}

fn pow10_exec(k: u32) -> (r: u128)
    requires
        k <= 20,
    ensures
        r == pow10(k as nat),
{
    let mut acc: u128 = 1;
    let mut i: u32 = 0;
    while i < k
        invariant
            i <= k <= 20,
            acc == pow10(i as nat),
        decreases k - i,
    {
        proof {
            lemma_pow10_mono(i as nat, 19);
            assert(pow10(19) == 0x8ac7230489e80000) by {
                reveal_with_fuel(pow10, 20);
            }
        }
        acc = acc * 10;
        i = i + 1;
    }
    acc
}

/// Composes the damage id for one hit: `damage_type ‖ skill_effect_id ‖
/// hit_event_id` in decimal, 0 when the numeral does not denote an `i64`.
pub fn compute_damage_id(
    table: &KvMap<i64>,
    damage_source: Option<i32>,
    owner_id: i32,
    owner_level: Option<i32>,
    hit_event_id: Option<i32>,
) -> (r: i64)
    requires
        table.wf(),
    ensures
        r == sp_damage_id(table@, damage_source, owner_id, owner_level, hit_event_id),
{
    let owner_level: i32 = match owner_level {
        Some(v) => if v > 0 {
            v
        } else {
            0
        },
        None => 0,
    };
    let hit_event_id: i32 = match hit_event_id {
        Some(v) => if v > 0 {
            v
        } else {
            0
        },
        None => 0,
    };
    let mut skill_effect_id: i64 = if owner_id > 0 {
        owner_id as i64
    } else {
        0
    };
    let src_pos = match damage_source {
        Some(s) => s > 0,
        None => false,
    };
    let damage_type: i64;
    if src_pos {
        let s = match damage_source {
            Some(s) => s,
            None => 0,
        };
        damage_type = if s == 2 {
            2
        } else {
            3
        };
    } else {
        damage_type = 1;
        let prod1: i64 = (owner_id as i64) * 100 + (owner_level as i64);
        let k1: i64 = if prod1 >= i32::MIN as i64 && prod1 <= i32::MAX as i64 {
            prod1
        } else {
            owner_id as i64
        };
        match table.get(k1) {
            Some(v) => {
                skill_effect_id = *v;
            },
            None => {
                let prod2: i64 = (owner_id as i64) * 100 + 1;
                let k2: i64 = if prod2 >= i32::MIN as i64 && prod2 <= i32::MAX as i64 {
                    prod2
                } else {
                    owner_id as i64
                };
                match table.get(k2) {
                    Some(v) => {
                        skill_effect_id = *v;
                    },
                    None => {},
                }
            },
        }
        if skill_effect_id < 0 {
            return 0;
        }
    }
    proof {
        assert(pow10(19) == 0x8ac7230489e80000) by {
            reveal_with_fuel(pow10, 20);
        }
        assert(pow10(10) == 0x2540be400) by {
            reveal_with_fuel(pow10, 11);
        }
        lemma_dec_len_at_most(skill_effect_id as int, 19);
        if hit_event_id >= 10 {
            lemma_dec_len_at_most(hit_event_id as int, 10);
        }
    }
    let dls = dec_len_exec(skill_effect_id as u64);
    let hl: u32 = if hit_event_id >= 10 {
        dec_len_exec(hit_event_id as u64)
    } else {
        2
    };
    let p1 = pow10_exec(dls);
    let p2 = pow10_exec(hl);
    proof {
        lemma_pow10_pos(dls as nat);
        lemma_pow10_pos(hl as nat);
        lemma_pow10_mono(dls as nat, 19);
        lemma_pow10_mono(hl as nat, 10);
        assert(pow10(19) == 0x8ac7230489e80000) by {
            reveal_with_fuel(pow10, 20);
        }
        assert(pow10(10) == 0x2540be400) by {
            reveal_with_fuel(pow10, 11);
        }
    }
    proof {
        assert((damage_type as u128) * p1 <= 3 * 0x8ac7230489e80000u128) by (nonlinear_arith)
            requires
                1 <= damage_type <= 3,
                1 <= p1 <= 0x8ac7230489e80000u128,
        ;
    }
    let a: u128 = (damage_type as u128) * p1 + (skill_effect_id as u128);
    proof {
        assert(a * p2 + hit_event_id <= 0x10000000000000000000000000000u128) by (nonlinear_arith)
            requires
                a <= 4 * 0x8ac7230489e80000u128,
                1 <= p2 <= 0x2540be400u128,
                0 <= hit_event_id < 0x80000000,
        ;
    }
    let v: u128 = a * p2 + (hit_event_id as u128);
    if v > i64::MAX as u128 {
        0
    } else {
        v as i64
    }
}

} // verus!
