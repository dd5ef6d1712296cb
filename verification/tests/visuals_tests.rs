use epn_mod::features::visuals::{
    count_groups_in_range, enemy_class_cached, is_class_selected, manual_filter_on,
    passes_class_filter, passes_class_search, record_class, sort_groups_by_count, toggle_selected_class,
    top_class_groups,
};
use epn_mod::memory::{ClassGroup, UOBJECT_NAME_OFFSET};
use std::cell::Cell;
use std::collections::HashMap;

fn g(class_ptr: usize, count: i32) -> ClassGroup {
    ClassGroup { class_ptr, count }
}

fn pairs(gs: &[ClassGroup]) -> Vec<(usize, i32)> {
    gs.iter().map(|x| (x.class_ptr, x.count)).collect()
}

#[test]
fn classes_are_counted() {
    let mut groups = Vec::new();
    for c in [5usize, 7, 5, 9, 5, 7] {
        record_class(&mut groups, c);
    }
    assert_eq!(pairs(&groups), vec![(5, 3), (7, 2), (9, 1)]);
}

#[test]
fn sorting_is_descending_and_stable() {
    let mut gs = vec![g(1, 2), g(2, 5), g(3, 2), g(4, 5), g(5, 1)];
    sort_groups_by_count(&mut gs);
    assert_eq!(pairs(&gs), vec![(2, 5), (4, 5), (1, 2), (3, 2), (5, 1)]);
    let mut empty: Vec<ClassGroup> = Vec::new();
    sort_groups_by_count(&mut empty);
    assert!(empty.is_empty());
}

#[test]
fn top_groups_are_padded_and_cut() {
    let top = top_class_groups(vec![g(1, 1), g(2, 3)]);
    assert_eq!((top[0].class_ptr, top[0].count), (2, 3));
    assert_eq!((top[1].class_ptr, top[1].count), (1, 1));
    assert!(top[2..].iter().all(|x| x.class_ptr == 0 && x.count == 0));
    let many: Vec<ClassGroup> = (1..=70usize).map(|k| g(k, k as i32)).collect();
    let top = top_class_groups(many);
    assert_eq!((top[0].class_ptr, top[0].count), (70, 70));
    assert_eq!((top[63].class_ptr, top[63].count), (7, 7));
}

#[test]
fn toggling_selection() {
    let mut sel = [0usize; 8];
    toggle_selected_class(&mut sel, 0xAB);
    assert_eq!(sel, [0xAB, 0, 0, 0, 0, 0, 0, 0]);
    toggle_selected_class(&mut sel, 0xCD);
    assert_eq!(sel, [0xAB, 0xCD, 0, 0, 0, 0, 0, 0]);
    toggle_selected_class(&mut sel, 0xAB);
    assert_eq!(sel, [0, 0xCD, 0, 0, 0, 0, 0, 0]);
    toggle_selected_class(&mut sel, 0xEF);
    assert_eq!(sel, [0xEF, 0xCD, 0, 0, 0, 0, 0, 0]);
    toggle_selected_class(&mut sel, 0);
    assert_eq!(sel, [0xEF, 0xCD, 0, 0, 0, 0, 0, 0]);
    let mut full = [1usize, 2, 3, 4, 5, 6, 7, 8];
    toggle_selected_class(&mut full, 9);
    assert_eq!(full, [1, 2, 3, 4, 5, 6, 7, 8]);
    let mut dup = [4usize, 0, 4, 0, 0, 0, 0, 0];
    toggle_selected_class(&mut dup, 4);
    assert_eq!(dup, [0; 8]);
    assert!(is_class_selected(&[0, 0, 3, 0, 0, 0, 0, 0], 3));
    assert!(!is_class_selected(&[0, 0, 3, 0, 0, 0, 0, 0], 4));
}

#[test]
fn manual_filter_needs_a_selection() {
    assert!(!manual_filter_on(true, &[0; 8]));
    assert!(manual_filter_on(true, &[0, 0, 0, 0, 0, 0, 0, 9]));
    assert!(!manual_filter_on(false, &[1; 8]));
}

#[test]
fn groups_in_count_range() {
    let mut groups = [ClassGroup::default(); 64];
    groups[0] = g(1, 500);
    groups[1] = g(2, 100);
    groups[2] = g(3, 1);
    groups[3] = g(0, 50);
    groups[4] = g(4, 101);
    assert_eq!(count_groups_in_range(&groups, 1, 100), 2);
    assert_eq!(count_groups_in_range(&groups, 1, 2000), 4);
    assert_eq!(count_groups_in_range(&groups, 200, 100), 0);
}

fn namer() -> impl Fn(usize, usize) -> Option<String> {
    |_mb: usize, a: usize| match a - UOBJECT_NAME_OFFSET {
        0x10 => Some("BP_Human_Enemy_C".to_string()),
        0x20 => Some("BP_Cloud".to_string()),
        _ => None,
    }
}

#[test]
fn enemy_verdicts_are_cached() {
    let calls = Cell::new(0);
    let inner = namer();
    let resolve = |mb: usize, a: usize| {
        calls.set(calls.get() + 1);
        inner(mb, a)
    };
    let mut cache = HashMap::new();
    assert!(enemy_class_cached(&mut cache, 1, 0x10, &resolve));
    assert!(!enemy_class_cached(&mut cache, 1, 0x20, &resolve));
    assert!(!enemy_class_cached(&mut cache, 1, 0x30, &resolve));
    assert_eq!(calls.get(), 3);
    assert!(enemy_class_cached(&mut cache, 1, 0x10, &resolve));
    assert_eq!(calls.get(), 3);
    assert_eq!(cache.get(&0x20), Some(&false));
    cache.insert(0x20, true);
    assert!(enemy_class_cached(&mut cache, 1, 0x20, &resolve));
    assert!(!enemy_class_cached(&mut cache, 1, 0, &resolve));
}

#[test]
fn class_filter_decision() {
    let resolve = namer();
    let sel = [0x20usize, 0, 0, 0, 0, 0, 0, 0];
    let mut cache = HashMap::new();
    assert!(passes_class_filter(false, false, &sel, 0x99, &mut cache, 1, &resolve));
    assert!(cache.is_empty());
    assert!(passes_class_filter(true, false, &sel, 0x10, &mut cache, 1, &resolve));
    assert!(!passes_class_filter(true, false, &sel, 0x20, &mut cache, 1, &resolve));
    assert!(passes_class_filter(true, true, &sel, 0x20, &mut cache, 1, &resolve));
    assert!(passes_class_filter(false, true, &sel, 0x20, &mut cache, 1, &resolve));
    assert!(!passes_class_filter(false, true, &sel, 0x10, &mut cache, 1, &resolve));
    assert!(!passes_class_filter(true, false, &sel, 0, &mut cache, 1, &resolve));
    assert_eq!(cache.len(), 2);
}

#[test]
fn toggling_twice_restores_the_selection() {
    let start = [0x11usize, 0, 0x22, 0, 0, 0, 0, 0];
    let mut sel = start;
    toggle_selected_class(&mut sel, 0x33);
    assert!(is_class_selected(&sel, 0x33));
    toggle_selected_class(&mut sel, 0x33);
    assert_eq!(sel, start);
    // unselecting and reselecting keeps the same classes, maybe in another slot
    let mut sel = start;
    toggle_selected_class(&mut sel, 0x22);
    assert!(!is_class_selected(&sel, 0x22));
    toggle_selected_class(&mut sel, 0x22);
    assert_eq!(sel, [0x11, 0x22, 0, 0, 0, 0, 0, 0]);
}

#[test]
fn class_search_ignores_case() {
    assert!(passes_class_search("BP_Harrier_C", "HARR"));
    assert!(passes_class_search("BP_Harrier_C", "harrier_c"));
    assert!(passes_class_search("BP_Harrier_C", ""));
    assert!(!passes_class_search("BP_Harrier_C", "rover"));
    assert!(passes_class_search("ÄRGER", "är"));
    assert!(!passes_class_search("", "a"));
}
