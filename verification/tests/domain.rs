use meter_core::buff_names::{BuffTable, RawBuffItem};
use meter_core::cd_calc::{plan_skill_cd, temp_attr_matches, CdPlan, CdTempAttrDef};
use meter_core::damage_id::compute_damage_id;
use meter_core::kvmap::KvMap;
use meter_core::recount_names::{self, RecountTable};
use meter_core::server::Server;

#[test]
fn damage_id_composes_from_skill_table() {
    let mut table: KvMap<i64> = KvMap::new();
    table.insert(4203, 99);
    // 1 ‖ 99 ‖ 07 = 19907
    assert_eq!(compute_damage_id(&table, None, 42, Some(3), Some(7)), 19907);
}

#[test]
fn damage_id_falls_back_to_level_one_then_owner() {
    let mut table: KvMap<i64> = KvMap::new();
    table.insert(4201, 55);
    // 4203 missing, falls back to 4201 -> 55: 1 ‖ 55 ‖ 07
    assert_eq!(compute_damage_id(&table, None, 42, Some(3), Some(7)), 15507);
    // Nothing for owner 9: the owner id itself is kept: 1 ‖ 9 ‖ 00
    assert_eq!(compute_damage_id(&table, None, 9, None, None), 1900);
}

#[test]
fn damage_id_prefix_follows_damage_source() {
    let table: KvMap<i64> = KvMap::new();
    assert_eq!(compute_damage_id(&table, Some(2), 42, None, Some(7)), 24207);
    assert_eq!(compute_damage_id(&table, Some(5), 42, None, Some(7)), 34207);
    assert_eq!(compute_damage_id(&table, None, 42, None, Some(7)), 14207);
    // Two-digit hit event ids are appended as they are.
    assert_eq!(compute_damage_id(&table, Some(2), 42, None, Some(31)), 24231);
}

#[test]
fn damage_id_degenerate_inputs_yield_zero() {
    let mut table: KvMap<i64> = KvMap::new();
    table.insert(4203, -5);
    // A negative resolved skill-effect id cannot be concatenated.
    assert_eq!(compute_damage_id(&table, None, 42, Some(3), Some(7)), 0);
    // A numeral longer than an i64 overflows the parse.
    let empty: KvMap<i64> = KvMap::new();
    assert_eq!(
        compute_damage_id(&empty, Some(5), i32::MAX, None, Some(i32::MAX)),
        0
    );
}

#[test]
fn recount_groups_damage_ids() {
    let mut table = RecountTable::new();
    table.add_entry(70, &String::from("Flame"), &vec![19907, 19908]);
    table.add_entry(71, &String::from("Frost"), &vec![20001]);
    assert_eq!(table.resolve_skill_key(19908), 70);
    assert_eq!(table.resolve_skill_key(20001), 71);
    assert_eq!(table.resolve_skill_key(555), 555);
    assert_eq!(table.lookup_name(70), Some(String::from("Flame")));
    assert_eq!(table.lookup_name(999), None);
}

#[test]
fn recount_compute_damage_id_matches_module() {
    let mut table: KvMap<i64> = KvMap::new();
    table.insert(4203, 99);
    assert_eq!(
        recount_names::compute_damage_id(&table, None, 42, Some(3), Some(7)),
        19907
    );
}

#[test]
fn cooldown_plan_zero_without_positive_base() {
    let tags: KvMap<Vec<i32>> = KvMap::new();
    let defs: KvMap<CdTempAttrDef> = KvMap::new();
    let plan = plan_skill_cd(false, 501, &vec![(1, 5)], &tags, &defs);
    assert_eq!(plan, CdPlan::Zero);
}

#[test]
fn cooldown_plan_frozen_by_no_cd_reduce_tag() {
    let mut tags: KvMap<Vec<i32>> = KvMap::new();
    tags.insert(501, vec![103]);
    let mut defs: KvMap<CdTempAttrDef> = KvMap::new();
    defs.insert(
        7,
        CdTempAttrDef { attr_type: 101, logic_type: 0, attr_params: vec![] },
    );
    // Temp attrs are irrelevant once the tag is present.
    let plan = plan_skill_cd(true, 501, &vec![(7, 4000)], &tags, &defs);
    assert_eq!(plan, CdPlan::NoReduce);
}

#[test]
fn cooldown_plan_collects_matching_contributions() {
    let mut tags: KvMap<Vec<i32>> = KvMap::new();
    tags.insert(501, vec![9, 12]);
    let mut defs: KvMap<CdTempAttrDef> = KvMap::new();
    // Always matches, flat reduction.
    defs.insert(
        1,
        CdTempAttrDef { attr_type: 101, logic_type: 0, attr_params: vec![] },
    );
    // Matches by skill id, percent reduction.
    defs.insert(
        2,
        CdTempAttrDef { attr_type: 100, logic_type: 1, attr_params: vec![5] },
    );
    // Matches by tag intersection, acceleration.
    defs.insert(
        3,
        CdTempAttrDef { attr_type: 103, logic_type: 3, attr_params: vec![12] },
    );
    // Wrong skill id: skipped.
    defs.insert(
        4,
        CdTempAttrDef { attr_type: 100, logic_type: 1, attr_params: vec![6] },
    );
    let vals = vec![(1, 500), (2, 2000), (3, 1500), (4, 800), (5, 77), (1, 0)];
    let plan = plan_skill_cd(true, 501, &vals, &tags, &defs);
    match plan {
        CdPlan::Reduce { flat, pct, accelerate } => {
            assert_eq!(flat, vec![500]);
            assert_eq!(pct, vec![2000]);
            assert_eq!(accelerate, vec![1500]);
        },
        other => panic!("expected a reduction plan, got {:?}", other),
    }
}

#[test]
fn temp_attr_matching_policies() {
    let always = CdTempAttrDef { attr_type: 101, logic_type: 0, attr_params: vec![] };
    let by_skill = CdTempAttrDef { attr_type: 101, logic_type: 1, attr_params: vec![5, 8] };
    let by_tag = CdTempAttrDef { attr_type: 101, logic_type: 3, attr_params: vec![44] };
    let never = CdTempAttrDef { attr_type: 101, logic_type: 2, attr_params: vec![5] };
    let tags = vec![44, 45];
    assert!(temp_attr_matches(&always, 5, &tags));
    assert!(temp_attr_matches(&by_skill, 8, &tags));
    assert!(!temp_attr_matches(&by_skill, 9, &tags));
    assert!(temp_attr_matches(&by_tag, 9, &tags));
    assert!(!temp_attr_matches(&by_tag, 9, &vec![1]));
    assert!(!temp_attr_matches(&never, 5, &tags));
}

fn raw(id: i32, name: &str, icon: &str, sprite: Option<&str>) -> RawBuffItem {
    (
        id,
        Some(String::from(name)),
        Some(String::from(icon)),
        sprite.map(String::from),
    )
}

#[test]
fn buff_table_lookups() {
    let entries = vec![
        raw(3, "Attack Up", "atk", Some("atk.png")),
        raw(1, "Guard", "grd", None),
        (2, None, Some(String::from("x")), None),
        (4, Some(String::new()), None, None),
        raw(5, "Haste", "hst", Some("")),
    ];
    let table = BuffTable::from_entries(&entries);
    assert_eq!(table.lookup_name(3), Some(String::from("Attack Up")));
    assert_eq!(table.lookup_name(1), Some(String::from("Guard")));
    // Entries without a usable name are not stored.
    assert_eq!(table.lookup_name(2), None);
    assert_eq!(table.lookup_name(4), None);
    assert!(table.is_valid(5));
    assert!(!table.is_valid(9));
    assert_eq!(table.lookup_sprite(3), Some(String::from("atk.png")));
    // An empty sprite file is stored as none.
    assert_eq!(table.lookup_sprite(5), None);
    assert_eq!(table.lookup_sprite(1), None);
}

#[test]
fn buffs_with_sprites_come_sorted() {
    let entries = vec![
        raw(9, "Nine", "i9", Some("nine.png")),
        raw(2, "Two", "i2", Some("two.png")),
        raw(5, "Five", "i5", None),
    ];
    let table = BuffTable::from_entries(&entries);
    let sprites = table.get_buffs_with_sprites();
    assert_eq!(sprites.len(), 2);
    assert_eq!(sprites[0].base_id, 2);
    assert_eq!(sprites[0].name, "Two");
    assert_eq!(sprites[0].sprite_file, "two.png");
    assert_eq!(sprites[1].base_id, 9);
}

#[test]
fn search_trims_and_ignores_case() {
    let entries = vec![
        raw(4, "Attack Up", "a", None),
        raw(2, "attack down", "b", None),
        raw(3, "Guard", "c", None),
    ];
    let table = BuffTable::from_entries(&entries);
    let hits = table.search_buffs_by_name("  ATTACK ", 10);
    assert_eq!(hits.len(), 2);
    assert_eq!(hits[0].0, 2);
    assert_eq!(hits[1].0, 4);
    let limited = table.search_buffs_by_name("attack", 1);
    assert_eq!(limited.len(), 1);
    assert_eq!(limited[0].0, 2);
    assert!(table.search_buffs_by_name("   ", 10).is_empty());
    assert!(table.search_buffs_by_name("missing", 10).is_empty());
}

#[test]
fn reload_replaces_the_table() {
    let mut table = BuffTable::from_entries(&vec![raw(1, "Old", "o", None)]);
    table.reload_cache(&vec![raw(2, "New", "n", None)]);
    assert_eq!(table.lookup_name(1), None);
    assert_eq!(table.lookup_name(2), Some(String::from("New")));
}

#[test]
fn server_renders_its_endpoints() {
    let s = Server::new([192, 168, 0, 1], 8080, [10, 0, 0, 255], 443);
    assert_eq!(s.display_string(), "192.168.0.1:8080 -> 10.0.0.255:443");
}

#[test]
fn kvmap_replaces_on_duplicate_key() {
    let mut m: KvMap<i64> = KvMap::new();
    m.insert(10, 1);
    m.insert(5, 2);
    m.insert(10, 3);
    assert_eq!(m.len(), 2);
    assert_eq!(m.get(10), Some(&3));
    assert_eq!(m.get(5), Some(&2));
    assert_eq!(m.get(7), None);
    assert!(m.contains(5));
    assert!(!m.contains(7));
    // Entries come back in ascending key order.
    assert_eq!(m.entry_at(0).0, 5);
    assert_eq!(m.entry_at(1).0, 10);
}
