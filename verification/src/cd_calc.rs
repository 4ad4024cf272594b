//! Cooldown planning: which temp-attr values apply to a skill, and where.
//!
//! The final cooldown arithmetic runs in 32-bit floating point outside this
//! crate; everything that decides it is integer logic and lives here. Given
//! the skill, the temp-attr values and the reference tables, the plan says
//! whether the cooldown is forced to zero (no positive base), frozen by the
//! `NO_CD_REDUCE` tag, or reduced — and in the last case, exactly which raw
//! values feed the flat-reduction, percent-reduction and acceleration
//! accumulators, in input order.

use vstd::prelude::*;

use crate::kvmap::KvMap;

verus! {

/// Skill-effect tag that disables all cooldown reduction and acceleration.
pub const TAG_NO_CD_REDUCE: i32 = 103;

/// Temp-attr type feeding the percent-reduction accumulator.
pub const ATTR_PCT_REDUCE: i32 = 100;

/// Temp-attr type feeding the flat-reduction accumulator.
pub const ATTR_FLAT_REDUCE: i32 = 101;

/// Temp-attr type feeding the acceleration accumulator.
pub const ATTR_ACCELERATE: i32 = 103;

/// One temp-attr definition from the reference table.
#[derive(Debug, Clone)]
pub struct CdTempAttrDef {
    /// Which accumulator the value feeds: 100, 101 or 103.
    pub attr_type: i32,
    /// How the definition is matched against the skill.
    pub logic_type: i32,
    /// Skill ids (logic 1) or tags (logic 3) the definition applies to.
    pub attr_params: Vec<i32>,
}

/// Whether `x` occurs in `s`.
pub open spec fn sp_contains_i32(s: Seq<i32>, x: int) -> bool {
    exists|i: int| 0 <= i < s.len() && s[i] == x
}

/// Whether a definition applies to the skill: logic 0 always, logic 1 when
/// the skill id is among the params, logic 3 when a param is among the
/// skill's tags, any other logic never.
pub open spec fn sp_temp_attr_matches(
    logic_type: int,
    params: Seq<i32>,
    skill_id: int,
    tags: Seq<i32>,
) -> bool {
    if logic_type == 0 {
        true
    } else if logic_type == 1 {
        sp_contains_i32(params, skill_id)
    } else if logic_type == 3 {
        exists|i: int| 0 <= i < params.len() && #[trigger] sp_contains_i32(tags, params[i] as int)
    } else {
        false
    }
}

/// Truncating division by 100, as machine division rounds toward zero.
pub open spec fn div100_trunc(x: int) -> int {
    if x >= 0 {
        x / 100
    } else {
        -((-x) / 100)
    }
}

/// The tags of the skill: the skill-effect entry at level 1.
pub open spec fn sp_skill_tags(tags_table: Map<i64, Vec<i32>>, skill_id: int) -> Seq<i32> {
    let key = skill_id * 100 + 1;
    if tags_table.contains_key(key as i64) {
        tags_table[key as i64]@
    } else {
        Seq::empty()
    }
}

/// Whether one `(temp_attr_id, value)` pair contributes to the accumulator
/// of `attr_type`: the value is non-zero, the definition exists, has that
/// attr type, and matches the skill.
pub open spec fn sp_contributes(
    kv: (i32, i32),
    defs: Map<i64, CdTempAttrDef>,
    skill_id: int,
    tags: Seq<i32>,
    attr_type: int,
) -> bool {
    &&& kv.1 != 0
    &&& defs.contains_key(kv.0 as i64)
    &&& defs[kv.0 as i64].attr_type == attr_type
    &&& sp_temp_attr_matches(
        defs[kv.0 as i64].logic_type as int,
        defs[kv.0 as i64].attr_params@,
        skill_id,
        tags,
    )
}

/// The raw values feeding the accumulator of `attr_type`, in input order.
pub open spec fn sp_contribs(
    vals: Seq<(i32, i32)>,
    defs: Map<i64, CdTempAttrDef>,
    skill_id: int,
    tags: Seq<i32>,
    attr_type: int,
) -> Seq<i32> {
    vals.filter(|kv: (i32, i32)| sp_contributes(kv, defs, skill_id, tags, attr_type)).map_values(
        |kv: (i32, i32)| kv.1,
    )
}

/// What the cooldown computation must do with the base cooldown.
#[derive(Debug, Clone, PartialEq, Eq)]
pub enum CdPlan {
    /// The base cooldown is not positive: cooldown and acceleration are 0.
    Zero,
    /// The skill carries `NO_CD_REDUCE`: the base cooldown stands unreduced
    /// and acceleration is 0.
    NoReduce,
    /// Reduction applies. Each list holds the raw temp-attr values feeding
    /// one accumulator, in input order: flat values scale by 1/1000,
    /// percent and acceleration values by 1/10000.
    Reduce { flat: Vec<i32>, pct: Vec<i32>, accelerate: Vec<i32> },
}

/// Whether `x` occurs in the vector.
fn contains_i32(v: &Vec<i32>, x: i32) -> (r: bool)
    ensures
        r == sp_contains_i32(v@, x as int),
{
    let mut i: usize = 0;
    while i < v.len()
        invariant
            i <= v@.len(),
            forall|j: int| 0 <= j < i ==> v@[j] != x,
        decreases v@.len() - i,
    {
        if v[i] == x {
            return true;
        }
        i = i + 1;
    }
    false
}

/// Whether a temp-attr definition applies to the skill.
pub fn temp_attr_matches(def: &CdTempAttrDef, skill_id: i32, skill_tags: &Vec<i32>) -> (r: bool)
    ensures
        r == sp_temp_attr_matches(
            def.logic_type as int,
            def.attr_params@,
            skill_id as int,
            skill_tags@,
        ),
{
    if def.logic_type == 0 {
        true
    } else if def.logic_type == 1 {
        contains_i32(&def.attr_params, skill_id)
    } else if def.logic_type == 3 {
        let mut i: usize = 0;
        while i < def.attr_params.len()
            invariant
                def.logic_type == 3,
                i <= def.attr_params@.len(),
                forall|j: int|
                    0 <= j < i ==> !sp_contains_i32(skill_tags@, (#[trigger] def.attr_params@[j]) as int),
            decreases def.attr_params@.len() - i,
        {
            if contains_i32(skill_tags, def.attr_params[i]) {
                proof {
                    let wi = i as int;
                    assert(0 <= wi < def.attr_params@.len() && sp_contains_i32(
                        skill_tags@,
                        def.attr_params@[wi] as int,
                    ));
                }
                return true;
            }
            i = i + 1;
        }
        false
    } else {
        false
    }
}

/// Plans the cooldown computation for one skill.
///
/// `base_cd_positive` says whether the base cooldown is greater than zero;
/// `temp_attr_values` are the `(temp_attr_id, value)` pairs in effect.
pub fn plan_skill_cd(
    base_cd_positive: bool,
    skill_level_id: i32,
    temp_attr_values: &Vec<(i32, i32)>,
    tags_table: &KvMap<Vec<i32>>,
    defs: &KvMap<CdTempAttrDef>,
) -> (r: CdPlan)
    requires
        tags_table.wf(),
        defs.wf(),
    ensures
        ({
            let skill_id = div100_trunc(skill_level_id as int);
            let tags = sp_skill_tags(tags_table@, skill_id);
            if !base_cd_positive {
                r == CdPlan::Zero
            } else if sp_contains_i32(tags, TAG_NO_CD_REDUCE as int) {
                r == CdPlan::NoReduce
            } else {
                r matches CdPlan::Reduce { flat, pct, accelerate }
                    && flat@ == sp_contribs(
                    temp_attr_values@,
                    defs@,
                    skill_id,
                    tags,
                    ATTR_FLAT_REDUCE as int,
                ) && pct@ == sp_contribs(
                    temp_attr_values@,
                    defs@,
                    skill_id,
                    tags,
                    ATTR_PCT_REDUCE as int,
                ) && accelerate@ == sp_contribs(
                    temp_attr_values@,
                    defs@,
                    skill_id,
                    tags,
                    ATTR_ACCELERATE as int,
                )
            }
        }),
{
    if !base_cd_positive {
        return CdPlan::Zero;
    }
    let s64 = skill_level_id as i64;
    let sid64: i64 = if s64 >= 0 {
        s64 / 100
    } else {
        -((-s64) / 100)
    };
    let skill_id = sid64 as i32;
    let key: i64 = sid64 * 100 + 1;
    let empty_tags: Vec<i32> = Vec::new();
    let tags: &Vec<i32> = match tags_table.get(key) {
        Some(v) => v,
        None => &empty_tags,
    };
    let ghost tags_spec = sp_skill_tags(tags_table@, div100_trunc(skill_level_id as int));
    proof {
        assert(tags@ == tags_spec);
    }
    if contains_i32(tags, TAG_NO_CD_REDUCE) {
        return CdPlan::NoReduce;
    }
    let mut flat: Vec<i32> = Vec::new();
    let mut pct: Vec<i32> = Vec::new();
    let mut accelerate: Vec<i32> = Vec::new();
    let ghost sid = div100_trunc(skill_level_id as int);
    let n = temp_attr_values.len();
    let mut i: usize = 0;
    while i < n
        invariant
            n == temp_attr_values@.len(),
            i <= n,
            tags_table.wf(),
            defs.wf(),
            sid == div100_trunc(skill_level_id as int),
            tags_spec == sp_skill_tags(tags_table@, sid),
            flat@ == sp_contribs(
                temp_attr_values@.take(i as int),
                defs@,
                sid,
                tags_spec,
                ATTR_FLAT_REDUCE as int,
            ),
            pct@ == sp_contribs(
                temp_attr_values@.take(i as int),
                defs@,
                sid,
                tags_spec,
                ATTR_PCT_REDUCE as int,
            ),
            accelerate@ == sp_contribs(
                temp_attr_values@.take(i as int),
                defs@,
                sid,
                tags_spec,
                ATTR_ACCELERATE as int,
            ),
            skill_id == sid,
            tags@ == tags_spec,
        decreases n - i,
    {
        let (attr_id, value) = temp_attr_values[i];
        let ghost kv = temp_attr_values@[i as int];
        if value != 0 {
            match defs.get(attr_id as i64) {
                Some(def) => {
                    if temp_attr_matches(def, skill_id, tags) {
                        if def.attr_type == ATTR_FLAT_REDUCE {
                            flat.push(value);
                        } else if def.attr_type == ATTR_PCT_REDUCE {
                            pct.push(value);
                        } else if def.attr_type == ATTR_ACCELERATE {
                            accelerate.push(value);
                        }
                    }
                },
                None => {},
            }
        }
        proof {
            lemma_contribs_step(temp_attr_values@, i as int, defs@, sid, tags_spec);
            assert(flat@ == sp_contribs(
                temp_attr_values@.take(i + 1),
                defs@,
                sid,
                tags_spec,
                ATTR_FLAT_REDUCE as int,
            ));
            assert(pct@ == sp_contribs(
                temp_attr_values@.take(i + 1),
                defs@,
                sid,
                tags_spec,
                ATTR_PCT_REDUCE as int,
            ));
            assert(accelerate@ == sp_contribs(
                temp_attr_values@.take(i + 1),
                defs@,
                sid,
                tags_spec,
                ATTR_ACCELERATE as int,
            ));
        }
        i = i + 1;
    }
    proof {
        assert(temp_attr_values@.take(n as int) =~= temp_attr_values@);
    }
    CdPlan::Reduce { flat, pct, accelerate }
}

/// One filtering step: extending the input by one pair extends each
/// contribution list by that pair's value exactly when it contributes.
proof fn lemma_contribs_step(
    vals: Seq<(i32, i32)>,
    i: int,
    defs: Map<i64, CdTempAttrDef>,
    skill_id: int,
    tags: Seq<i32>,
)
    requires
        0 <= i < vals.len(),
    ensures
        forall|attr_type: int|
            #![trigger sp_contribs(vals.take(i + 1), defs, skill_id, tags, attr_type)]
            sp_contribs(vals.take(i + 1), defs, skill_id, tags, attr_type) == (if sp_contributes(
                vals[i],
                defs,
                skill_id,
                tags,
                attr_type,
            ) {
                sp_contribs(vals.take(i), defs, skill_id, tags, attr_type).push(vals[i].1)
            } else {
                sp_contribs(vals.take(i), defs, skill_id, tags, attr_type)
            }),
{
    assert forall|attr_type: int|
        #![trigger sp_contribs(vals.take(i + 1), defs, skill_id, tags, attr_type)]
        sp_contribs(vals.take(i + 1), defs, skill_id, tags, attr_type) == (if sp_contributes(
            vals[i],
            defs,
            skill_id,
            tags,
            attr_type,
        ) {
            sp_contribs(vals.take(i), defs, skill_id, tags, attr_type).push(vals[i].1)
        } else {
            sp_contribs(vals.take(i), defs, skill_id, tags, attr_type)
        }) by {
        reveal(Seq::filter);
        let pred = |kv: (i32, i32)| sp_contributes(kv, defs, skill_id, tags, attr_type);
        assert(vals.take(i + 1).drop_last() =~= vals.take(i));
        assert(vals.take(i + 1).last() == vals[i]);
        let f1 = vals.take(i + 1).filter(pred);
        let f0 = vals.take(i).filter(pred);
        if pred(vals[i]) {
            assert(f1 == f0.push(vals[i]));
            assert(f1.map_values(|kv: (i32, i32)| kv.1) =~= f0.map_values(
                |kv: (i32, i32)| kv.1,
            ).push(vals[i].1));
        } else {
            assert(f1 == f0);
        }
    }
}

} // verus!
