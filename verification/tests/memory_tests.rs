use epn_mod::memory::{
    actor_slice, classify_enemy, decode_fname, get_actor_class, get_actors, get_camera_pointers,
    get_class_name, get_gworld, get_player_pawn_class, is_actor_alive, is_actor_visible,
    is_enemy_class_name, pick_pov_source, pov_addresses, resolve_fname, ActorArray, ClassGroup,
    EnemyKind, ACTORS_ARRAY_OFFSET, APPEND_STRING_OFFSET, CAMERA_CACHE_OFFSET,
    CAMERA_CACHE_POV_OFFSET, CAMERA_CACHE_PRIVATE_OFFSET, CAMERA_MANAGER_OFFSET,
    CHARACTER_MESH_OFFSET, CONTROLLER_PAWN_OFFSET, GAME_INSTANCE_OFFSET, GWORLD_OFFSET,
    HUMAN_HP_OFFSET, LOCAL_PLAYERS_OFFSET, MECH_HP_OFFSET, MECH_IS_DEAD_OFFSET,
    PERSISTENT_LEVEL_OFFSET, PLAYER_CONTROLLER_OFFSET, SKINNED_MESH_RENDERED_BYTE,
    UOBJECT_CLASS_OFFSET, UOBJECT_NAME_OFFSET, VIEW_TARGET_OFFSET,
};
use std::collections::HashMap;

fn ptr_reader(m: &HashMap<usize, usize>) -> impl Fn(usize) -> usize + '_ {
    move |a| *m.get(&a).unwrap_or(&0)
}

fn i32_reader(m: &HashMap<usize, i32>) -> impl Fn(usize) -> Option<i32> + '_ {
    move |a| m.get(&a).copied()
}

fn u8_reader(m: &HashMap<usize, u8>) -> impl Fn(usize) -> Option<u8> + '_ {
    move |a| m.get(&a).copied()
}

#[test]
fn gworld_is_read_at_offset() {
    let mut m = HashMap::new();
    m.insert(0x1000_0000 + GWORLD_OFFSET, 0xAAAA_0000usize);
    let rp = ptr_reader(&m);
    assert_eq!(get_gworld(0x1000_0000, &rp), 0xAAAA_0000);
    assert_eq!(get_gworld(0, &rp), 0);
    assert_eq!(get_gworld(0x2000_0000, &rp), 0);
}

#[test]
fn actors_follow_level_and_array() {
    let world = 0x5000usize;
    let level = 0x9000usize;
    let data = 0xC000usize;
    let mut p = HashMap::new();
    p.insert(world + PERSISTENT_LEVEL_OFFSET, level);
    p.insert(level + ACTORS_ARRAY_OFFSET, data);
    let mut i = HashMap::new();
    i.insert(level + ACTORS_ARRAY_OFFSET + 8, 3i32);
    let rp = ptr_reader(&p);
    let ri = i32_reader(&i);
    let (lv, arr) = get_actors(world, &rp, &ri);
    assert_eq!(lv, level);
    assert_eq!(arr.data, data);
    assert_eq!(arr.count, 3);

    let (lv0, arr0) = get_actors(0, &rp, &ri);
    assert_eq!((lv0, arr0.data, arr0.count), (0, 0, 0));
    let (lv1, arr1) = get_actors(0x7777, &rp, &ri);
    assert_eq!((lv1, arr1.data, arr1.count), (0, 0, 0));
}

#[test]
fn actors_with_implausible_count_are_empty() {
    let world = 0x5000usize;
    let level = 0x9000usize;
    let mut p = HashMap::new();
    p.insert(world + PERSISTENT_LEVEL_OFFSET, level);
    p.insert(level + ACTORS_ARRAY_OFFSET, 0xC000usize);
    for bad in [0i32, -4, 50_001] {
        let mut i = HashMap::new();
        i.insert(level + ACTORS_ARRAY_OFFSET + 8, bad);
        let (lv, arr) = get_actors(world, &ptr_reader(&p), &i32_reader(&i));
        assert_eq!(lv, level);
        assert_eq!((arr.data, arr.count), (0, 0));
    }
    let mut i = HashMap::new();
    i.insert(level + ACTORS_ARRAY_OFFSET + 8, 50_000);
    let (_, arr) = get_actors(world, &ptr_reader(&p), &i32_reader(&i));
    assert_eq!(arr.count, 50_000);
    // unreadable count counts as zero
    let empty = HashMap::new();
    let (_, arr) = get_actors(world, &ptr_reader(&p), &i32_reader(&empty));
    assert_eq!((arr.data, arr.count), (0, 0));
}

#[test]
fn actor_slice_checks_and_loads() {
    let arr = ActorArray { data: 0x4000, count: 3 };
    let loader = |a: usize, n: usize| (0..n).map(|k| a + k).collect::<Vec<usize>>();
    let yes = |_a: usize, _n: usize| true;
    let no = |_a: usize, _n: usize| false;
    assert_eq!(actor_slice(&arr, &yes, &loader), vec![0x4000, 0x4001, 0x4002]);
    assert!(actor_slice(&arr, &no, &loader).is_empty());
    let asked = |a: usize, n: usize| a == 0x4000 && n == 24;
    assert_eq!(actor_slice(&arr, &asked, &loader).len(), 3);
    let empty = ActorArray { data: 0, count: 3 };
    assert!(actor_slice(&empty, &yes, &loader).is_empty());
    let negative = ActorArray { data: 0x4000, count: -1 };
    assert!(actor_slice(&negative, &yes, &loader).is_empty());
}

#[test]
fn actor_and_pawn_classes() {
    let mut p = HashMap::new();
    p.insert(0x3000 + UOBJECT_CLASS_OFFSET, 0xC1A55usize);
    p.insert(0x8000 + CONTROLLER_PAWN_OFFSET, 0x3000usize);
    let rp = ptr_reader(&p);
    assert_eq!(get_actor_class(0x3000, &rp), 0xC1A55);
    assert_eq!(get_actor_class(0, &rp), 0);
    assert_eq!(get_player_pawn_class(0x8000, &rp), 0xC1A55);
    assert_eq!(get_player_pawn_class(0, &rp), 0);
    assert_eq!(get_player_pawn_class(0x9000, &rp), 0);
}

#[test]
fn class_name_is_resolved_at_name_offset() {
    let resolve = |mb: usize, a: usize| {
        if mb == 7 && a == 0x5000 + UOBJECT_NAME_OFFSET {
            Some("BP_Harrier_C".to_string())
        } else {
            None
        }
    };
    assert_eq!(get_class_name(7, 0x5000, &resolve), Some("BP_Harrier_C".to_string()));
    assert_eq!(get_class_name(7, 0, &resolve), None);
    assert_eq!(get_class_name(8, 0x5000, &resolve), None);
}

#[test]
fn enemy_names_by_prefix() {
    assert_eq!(classify_enemy("BP_Human_Enemy_Rifle_C"), EnemyKind::Human);
    assert_eq!(classify_enemy("BP_GLHuman_Gladiator_C"), EnemyKind::Human);
    assert_eq!(classify_enemy("BP_Harrier_C"), EnemyKind::Mech);
    assert_eq!(classify_enemy("BP_RoverBase"), EnemyKind::Mech);
    assert_eq!(classify_enemy("BP_RoverSpider_C"), EnemyKind::Mech);
    assert_eq!(classify_enemy("BP_RoverDriller_C"), EnemyKind::Mech);
    assert_eq!(classify_enemy("BP_Human_Player_C"), EnemyKind::NotEnemy);
    assert_eq!(classify_enemy("BP_Rover"), EnemyKind::NotEnemy);
    assert_eq!(classify_enemy(""), EnemyKind::NotEnemy);
    assert_eq!(classify_enemy("xBP_Harrier"), EnemyKind::NotEnemy);
    assert_eq!(EnemyKind::default(), EnemyKind::NotEnemy);
    assert!(is_enemy_class_name("BP_RoverDriller"));
    assert!(!is_enemy_class_name("Cloud_Voxel"));
}

#[test]
fn visibility_from_mesh_flag() {
    let actor = 0x3000usize;
    let mesh = 0x6000usize;
    let mut p = HashMap::new();
    p.insert(actor + CHARACTER_MESH_OFFSET, mesh);
    let mut b = HashMap::new();
    b.insert(mesh + SKINNED_MESH_RENDERED_BYTE, 0x40u8);
    assert!(is_actor_visible(actor, &ptr_reader(&p), &u8_reader(&b)));
    b.insert(mesh + SKINNED_MESH_RENDERED_BYTE, 0xBFu8);
    assert!(!is_actor_visible(actor, &ptr_reader(&p), &u8_reader(&b)));
    let nob = HashMap::new();
    assert!(is_actor_visible(actor, &ptr_reader(&p), &u8_reader(&nob)));
    assert!(is_actor_visible(0x9999, &ptr_reader(&p), &u8_reader(&b)));
    assert!(!is_actor_visible(0, &ptr_reader(&p), &u8_reader(&b)));
}

#[test]
fn aliveness_by_kind() {
    let actor = 0x3000usize;
    let no_hp = |_a: usize| None::<bool>;
    let mut i = HashMap::new();
    let b: HashMap<usize, u8> = HashMap::new();
    i.insert(actor + HUMAN_HP_OFFSET, 0i32);
    assert!(!is_actor_alive(actor, EnemyKind::Human, &i32_reader(&i), &u8_reader(&b), &no_hp));
    i.insert(actor + HUMAN_HP_OFFSET, 55);
    assert!(is_actor_alive(actor, EnemyKind::Human, &i32_reader(&i), &u8_reader(&b), &no_hp));
    i.insert(actor + HUMAN_HP_OFFSET, -3);
    assert!(is_actor_alive(actor, EnemyKind::Human, &i32_reader(&i), &u8_reader(&b), &no_hp));
    i.insert(actor + HUMAN_HP_OFFSET, 100_001);
    assert!(is_actor_alive(actor, EnemyKind::Human, &i32_reader(&i), &u8_reader(&b), &no_hp));
    i.insert(actor + HUMAN_HP_OFFSET, 0);
    assert!(is_actor_alive(0, EnemyKind::Human, &i32_reader(&i), &u8_reader(&b), &no_hp));
    assert!(is_actor_alive(actor, EnemyKind::NotEnemy, &i32_reader(&i), &u8_reader(&b), &no_hp));

    let mut d = HashMap::new();
    d.insert(actor + MECH_IS_DEAD_OFFSET, 1u8);
    let hp_dead = move |a: usize| if a == actor + MECH_HP_OFFSET { Some(false) } else { None };
    let hp_alive = move |a: usize| if a == actor + MECH_HP_OFFSET { Some(true) } else { None };
    assert!(!is_actor_alive(actor, EnemyKind::Mech, &i32_reader(&i), &u8_reader(&d), &hp_alive));
    d.insert(actor + MECH_IS_DEAD_OFFSET, 0u8);
    assert!(!is_actor_alive(actor, EnemyKind::Mech, &i32_reader(&i), &u8_reader(&d), &hp_dead));
    assert!(is_actor_alive(actor, EnemyKind::Mech, &i32_reader(&i), &u8_reader(&d), &hp_alive));
    assert!(is_actor_alive(actor, EnemyKind::Mech, &i32_reader(&i), &u8_reader(&d), &no_hp));
}

#[test]
fn camera_pointer_chain() {
    let world = 0x1000usize;
    let mut p = HashMap::new();
    p.insert(world + GAME_INSTANCE_OFFSET, 0x2000usize);
    p.insert(0x2000 + LOCAL_PLAYERS_OFFSET, 0x3000usize);
    p.insert(0x3000, 0x4000usize);
    p.insert(0x4000 + PLAYER_CONTROLLER_OFFSET, 0x5000usize);
    p.insert(0x5000 + CAMERA_MANAGER_OFFSET, 0x6000usize);
    let c = get_camera_pointers(world, &ptr_reader(&p));
    assert_eq!((c.gi, c.lp_array, c.local_player, c.pc, c.cm), (0x2000, 0x3000, 0x4000, 0x5000, 0x6000));
    p.remove(&0x3000);
    let c = get_camera_pointers(world, &ptr_reader(&p));
    assert_eq!((c.gi, c.lp_array, c.local_player, c.pc, c.cm), (0x2000, 0x3000, 0, 0, 0));
    let c = get_camera_pointers(0, &ptr_reader(&p));
    assert_eq!((c.gi, c.cm), (0, 0));
}

#[test]
fn pov_sources_in_preference_order() {
    let a = pov_addresses(0x10000);
    assert_eq!(a[0], 0x10000 + CAMERA_CACHE_PRIVATE_OFFSET + CAMERA_CACHE_POV_OFFSET);
    assert_eq!(a[1], 0x10000 + VIEW_TARGET_OFFSET + CAMERA_CACHE_POV_OFFSET);
    assert_eq!(a[2], 0x10000 + CAMERA_CACHE_OFFSET + CAMERA_CACHE_POV_OFFSET);
    assert_eq!(pick_pov_source(true, true, true), 1);
    assert_eq!(pick_pov_source(false, true, true), 2);
    assert_eq!(pick_pov_source(false, false, true), 3);
    assert_eq!(pick_pov_source(false, false, false), 0);
}

fn units(s: &str) -> Vec<u16> {
    s.encode_utf16().collect()
}

#[test]
fn fname_decoding() {
    let mut u = units("BP_Harrier");
    assert_eq!(decode_fname(10, &u), Some("BP_Harrier".to_string()));
    assert_eq!(decode_fname(3, &u), Some("BP_".to_string()));
    u.push(0);
    assert_eq!(decode_fname(11, &u), Some("BP_Harrier".to_string()));
    assert_eq!(decode_fname(0, &u), None);
    assert_eq!(decode_fname(-1, &u), None);
    assert_eq!(decode_fname(1025, &vec![65u16; 1100]), None);
    assert_eq!(decode_fname(1024, &vec![65u16; 1024]).map(|s| s.len()), Some(1024));
    assert_eq!(decode_fname(1, &vec![0u16]), None);
    assert_eq!(decode_fname(12, &u), None);
    assert_eq!(decode_fname(2, &vec![0xD800u16, 0x41]), Some("\u{FFFD}A".to_string()));
}

#[test]
fn fname_resolution_checks_before_calling() {
    let mb = 0x1_0000_0000usize;
    let fname = 0x20_0000usize;
    let call = |f: usize, a: usize| {
        assert_eq!(f, mb + APPEND_STRING_OFFSET);
        assert_eq!(a, fname);
        (5i32, units("Actor"))
    };
    let all = |_a: usize, _n: usize| true;
    assert_eq!(resolve_fname(mb, fname, &all, &call), Some("Actor".to_string()));
    assert_eq!(resolve_fname(0, fname, &all, &call), None);
    assert_eq!(resolve_fname(mb, 0xFFFF, &all, &call), None);
    let name_unreadable = |a: usize, _n: usize| a != fname;
    assert_eq!(resolve_fname(mb, fname, &name_unreadable, &call), None);
    let fn_unreadable = |a: usize, n: usize| !(a == mb + APPEND_STRING_OFFSET && n == 16);
    assert_eq!(resolve_fname(mb, fname, &fn_unreadable, &call), None);
}

#[test]
fn class_group_default_is_empty() {
    let g = ClassGroup::default();
    assert_eq!((g.class_ptr, g.count), (0, 0));
}

#[test]
fn fname_surrogates_decode() {
    assert_eq!(decode_fname(2, &vec![0xD83Du16, 0xDE00]), Some("\u{1F600}".to_string()));
    assert_eq!(decode_fname(3, &vec![0x41u16, 0xDC00, 0x42]), Some("A\u{FFFD}B".to_string()));
    assert_eq!(decode_fname(2, &vec![0xD83Du16, 0x42]), Some("\u{FFFD}B".to_string()));
    assert_eq!(decode_fname(1, &vec![0xD83Du16]), Some("\u{FFFD}".to_string()));
    // a name that decodes is never empty
    for n in 1..=3i32 {
        if let Some(s) = decode_fname(n, &vec![0xDC00u16, 0, 0]) {
            assert!(!s.is_empty());
        }
    }
}

#[test]
fn enemy_kind_survives_suffix() {
    for name in [
        "BP_Human_Enemy",
        "BP_GLHuman_Gladiator",
        "BP_Harrier",
        "BP_RoverBase",
        "BP_RoverSpider",
        "BP_RoverDriller",
    ] {
        let k = classify_enemy(name);
        assert_ne!(k, EnemyKind::NotEnemy);
        for suffix in ["", "_C", "_Elite_C_12", "Ü"] {
            assert_eq!(classify_enemy(&format!("{}{}", name, suffix)), k);
        }
    }
    assert_eq!(classify_enemy(&format!("{}{}", "BP_Harrie", "r_C")), EnemyKind::Mech);
}

#[test]
fn class_name_with_fname_resolver_and_null_base() {
    let call = |_f: usize, _a: usize| (5i32, units("Actor"));
    let all = |_a: usize, _n: usize| true;
    let resolve = |m: usize, a: usize| resolve_fname(m, a, &all, &call);
    assert_eq!(get_class_name(0, 0x20_0000, &resolve), None);
    assert_eq!(get_class_name(0x1_0000_0000, 0, &resolve), None);
    assert_eq!(get_class_name(0x1_0000_0000, 0x20_0000, &resolve), Some("Actor".to_string()));
}
