//! Recount resolution: grouping raw damage ids under display names.
//!
//! The recount table maps each raw damage id to its recount id and name; a
//! derived map gives each recount id its name, the first name seen for it.
//! Resolution falls back to the damage id itself when it is not grouped.

use vstd::prelude::*;

use crate::damage_id::sp_damage_id;
use crate::kvmap::KvMap;

verus! {

/// The recount reference table.
pub struct RecountTable {
    damage_to_recount: KvMap<(i64, String)>,
    recount_names: KvMap<String>,
}

/// Adding one recount entry to the damage map: every listed damage id is
/// bound to `(recount_id, name)`, later ids winning over earlier ones.
pub open spec fn sp_add_damage(
    m: Map<i64, (i64, Seq<char>)>,
    recount_id: i64,
    name: Seq<char>,
    ids: Seq<i64>,
) -> Map<i64, (i64, Seq<char>)>
    decreases ids.len(),
{
    if ids.len() == 0 {
        m
    } else {
        sp_add_damage(m, recount_id, name, ids.drop_last()).insert(ids.last(), (recount_id, name))
    }
}

impl RecountTable {
    /// Both underlying tables are well-formed.
    pub closed spec fn wf(&self) -> bool {
        self.damage_to_recount.wf() && self.recount_names.wf()
    }

    /// damage id → (recount id, recount name).
    pub closed spec fn damage_model(&self) -> Map<i64, (i64, Seq<char>)> {
        Map::new(
            |k: i64| self.damage_to_recount@.contains_key(k),
            |k: i64| (self.damage_to_recount@[k].0, self.damage_to_recount@[k].1@),
        )
    }

    /// recount id → recount name.
    pub closed spec fn name_model(&self) -> Map<i64, Seq<char>> {
        Map::new(
            |k: i64| self.recount_names@.contains_key(k),
            |k: i64| self.recount_names@[k]@,
        )
    }

    /// An empty table.
    pub fn new() -> (r: Self)
        ensures
            r.wf(),
            r.damage_model() == Map::<i64, (i64, Seq<char>)>::empty(),
            r.name_model() == Map::<i64, Seq<char>>::empty(),
    {
        let r = RecountTable { damage_to_recount: KvMap::new(), recount_names: KvMap::new() };
        proof {
            assert(r.damage_model() =~= Map::<i64, (i64, Seq<char>)>::empty());
            assert(r.name_model() =~= Map::<i64, Seq<char>>::empty());
        }
        r
    }

    /// Registers one recount entry: each damage id in `damage_ids` maps to
    /// `(recount_id, name)`, and the recount id gets `name` unless it
    /// already has one.
    pub fn add_entry(&mut self, recount_id: i64, name: &String, damage_ids: &Vec<i64>)
        requires
            old(self).wf(),
        ensures
            final(self).wf(),
            final(self).damage_model() == sp_add_damage(
                old(self).damage_model(),
                recount_id,
                name@,
                damage_ids@,
            ),
            final(self).name_model() == (if old(self).name_model().contains_key(recount_id) {
                old(self).name_model()
            } else {
                old(self).name_model().insert(recount_id, name@)
            }),
    {
        let n = damage_ids.len();
        let mut i: usize = 0;
        while i < n
            invariant
                self.wf(),
                n == damage_ids@.len(),
                i <= n,
                self.damage_model() == sp_add_damage(
                    old(self).damage_model(),
                    recount_id,
                    name@,
                    damage_ids@.take(i as int),
                ),
                self.recount_names == old(self).recount_names,
            decreases n - i,
        {
            let ghost before = self.damage_model();
            self.damage_to_recount.insert(damage_ids[i], (recount_id, name.clone()));
            proof {
                assert(self.damage_model() =~= before.insert(damage_ids[i as int], (
                    recount_id,
                    name@,
                )));
                assert(damage_ids@.take(i + 1).drop_last() =~= damage_ids@.take(i as int));
                assert(damage_ids@.take(i + 1).last() == damage_ids@[i as int]);
            }
            i = i + 1;
        }
        proof {
            assert(damage_ids@.take(n as int) =~= damage_ids@);
        }
        let ghost names_before = self.name_model();
        if !self.recount_names.contains(recount_id) {
            self.recount_names.insert(recount_id, name.clone());
            proof {
                assert(self.name_model() =~= names_before.insert(recount_id, name@));
            }
        }
    }

    /// The recount id grouping `damage_id`, or `damage_id` itself when it is
    /// not grouped.
    pub fn resolve_skill_key(&self, damage_id: i64) -> (r: i64)
        requires
            self.wf(),
        ensures
            r == (if self.damage_model().contains_key(damage_id) {
                self.damage_model()[damage_id].0
            } else {
                damage_id
            }),
    {
        match self.damage_to_recount.get(damage_id) {
            Some(v) => v.0,
            None => damage_id,
        }
    }

    /// The display name of a resolved key, when one is known.
    pub fn lookup_name(&self, skill_key: i64) -> (r: Option<String>)
        requires
            self.wf(),
        ensures
            match r {
                Some(s) => self.name_model().contains_key(skill_key) && s@
                    == self.name_model()[skill_key],
                None => !self.name_model().contains_key(skill_key),
            },
    {
        match self.recount_names.get(skill_key) {
            Some(s) => Some(s.clone()),
            None => None,
        }
    }
}

/// Composes the damage id for one hit, as the damage-id module defines it.
pub fn compute_damage_id(
    table: &KvMap<i64>,
    damage_source: Option<i32>,
    owner_id: i32,
    owner_level: Option<i32>,
    hit_event_id: Option<i32>,
) -> (r: i64)
    requires
        table.wf(),
    ensures
        r == sp_damage_id(table@, damage_source, owner_id, owner_level, hit_event_id),
{
    crate::damage_id::compute_damage_id(table, damage_source, owner_id, owner_level, hit_event_id)
}

} // verus!
