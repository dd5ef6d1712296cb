use epn_mod::features::filter::{
    find_class_by_name, find_classes_by_names, is_subclass_of, probe_gobjects_layout,
    walk_gobjects, ClassFilter, GObjectsStats, SubclassCache, ITEM_SIZE, NUM_ELEMENTS_OFFSET,
    USTRUCT_SUPER_OFFSET,
};
use epn_mod::memory::UOBJECT_NAME_OFFSET;
use std::cell::Cell;
use std::collections::HashMap;

const BASE: usize = 0x1_4000_0000;
const OFF: usize = 0x100;
const GOBJ: usize = BASE + OFF;
const CHUNKS: usize = 0x7000_0000;
const CHUNK0: usize = 0x7100_0000;

/// Object array with `objs[i]` in slot `i` (all in chunk 0).
fn object_memory(objs: &[usize]) -> (HashMap<usize, usize>, HashMap<usize, i32>) {
    let mut p = HashMap::new();
    p.insert(GOBJ, CHUNKS);
    p.insert(CHUNKS, CHUNK0);
    for (i, o) in objs.iter().enumerate() {
        p.insert(CHUNK0 + i * ITEM_SIZE, *o);
    }
    let mut n = HashMap::new();
    n.insert(GOBJ + NUM_ELEMENTS_OFFSET, objs.len() as i32);
    (p, n)
}

#[test]
fn probe_reads_eight_words() {
    let mut m = HashMap::new();
    for k in 0..8usize {
        m.insert(GOBJ + 4 * k, (k as i32) * 10 + 1);
    }
    m.remove(&(GOBJ + 8));
    let r = |a: usize| m.get(&a).copied();
    assert_eq!(probe_gobjects_layout(BASE, OFF, &r), [1, 11, 0, 31, 41, 51, 61, 71]);
    assert_eq!(probe_gobjects_layout(0, OFF, &r), [0; 8]);
}

#[test]
fn walk_visits_nonzero_objects_in_order() {
    let (p, n) = object_memory(&[0xA0, 0, 0xB0, 0xC0, 0]);
    let rp = |a: usize| *p.get(&a).unwrap_or(&0);
    let ri = |a: usize| n.get(&a).copied();
    let (stats, objs) = walk_gobjects(BASE, OFF, &rp, &ri);
    assert_eq!(objs, vec![0xA0, 0xB0, 0xC0]);
    assert_eq!(stats.gobjects_addr, GOBJ);
    assert_eq!(stats.chunks_array, CHUNKS);
    assert_eq!(stats.num_elements, 5);
    assert_eq!(stats.num_elements_offset, NUM_ELEMENTS_OFFSET);
    assert_eq!(stats.visited, 3);
}

#[test]
fn walk_spans_chunks() {
    let mut p = HashMap::new();
    p.insert(GOBJ, CHUNKS);
    p.insert(CHUNKS, CHUNK0);
    p.insert(CHUNKS + 8, 0x7200_0000usize);
    p.insert(CHUNK0 + 0xFFFF * ITEM_SIZE, 0x11usize);
    p.insert(0x7200_0000 + ITEM_SIZE, 0x22usize);
    let mut n = HashMap::new();
    n.insert(GOBJ + NUM_ELEMENTS_OFFSET, 0x10002i32);
    let rp = |a: usize| *p.get(&a).unwrap_or(&0);
    let ri = |a: usize| n.get(&a).copied();
    let (stats, objs) = walk_gobjects(BASE, OFF, &rp, &ri);
    assert_eq!(objs, vec![0x11, 0x22]);
    assert_eq!(stats.visited, 2);
}

#[test]
fn walk_stops_early_on_bad_layout() {
    let none = HashMap::<usize, usize>::new();
    let rp = |a: usize| *none.get(&a).unwrap_or(&0);
    let ri = |_a: usize| None::<i32>;
    let (stats, objs) = walk_gobjects(0, OFF, &rp, &ri);
    assert!(objs.is_empty());
    assert_eq!((stats.gobjects_addr, stats.visited), (0, 0));
    let (stats, objs) = walk_gobjects(BASE, OFF, &rp, &ri);
    assert!(objs.is_empty());
    assert_eq!((stats.gobjects_addr, stats.chunks_array, stats.num_elements_offset), (GOBJ, 0, 0));

    let (p, _) = object_memory(&[0xA0]);
    let rp = |a: usize| *p.get(&a).unwrap_or(&0);
    for bad in [0i32, -1, 4_000_001] {
        let ri = move |a: usize| if a == GOBJ + NUM_ELEMENTS_OFFSET { Some(bad) } else { None };
        let (stats, objs) = walk_gobjects(BASE, OFF, &rp, &ri);
        assert!(objs.is_empty());
        assert_eq!(stats.num_elements, bad);
        assert_eq!(stats.num_elements_offset, NUM_ELEMENTS_OFFSET);
        assert_eq!(stats.visited, 0);
    }
    let s = GObjectsStats::default();
    assert_eq!((s.gobjects_addr, s.chunks_array, s.num_elements, s.visited), (0, 0, 0, 0));
}

fn namer(names: HashMap<usize, &'static str>) -> impl Fn(usize, usize) -> Option<String> {
    move |mb: usize, a: usize| {
        if mb != BASE {
            return None;
        }
        names.get(&(a - UOBJECT_NAME_OFFSET)).map(|s| s.to_string())
    }
}

#[test]
fn classes_are_found_by_name_in_one_walk() {
    let (p, n) = object_memory(&[0xA0, 0xB0, 0xC0, 0xD0, 0xE0]);
    let rp = |a: usize| *p.get(&a).unwrap_or(&0);
    let ri = |a: usize| n.get(&a).copied();
    let mut names = HashMap::new();
    names.insert(0xA0, "Object");
    names.insert(0xB0, "Human");
    names.insert(0xC0, "GLBaseCharacter");
    names.insert(0xD0, "Human");
    names.insert(0xE0, "HumanPlayer");
    let resolve = namer(names);
    let (res, stats) = find_classes_by_names(BASE, OFF, &["GLBaseCharacter", "Human", "HumanPlayer", "Missing"], &rp, &ri, &resolve);
    assert_eq!(res, vec![Some(0xC0), Some(0xB0), Some(0xE0), None]);
    assert_eq!(stats.visited, 5);
    // a name asked for twice takes the first two objects with that name
    let (res, _) = find_classes_by_names(BASE, OFF, &["Human", "Human", "Human"], &rp, &ri, &resolve);
    assert_eq!(res, vec![Some(0xB0), Some(0xD0), None]);
    assert_eq!(find_class_by_name(BASE, OFF, "HumanPlayer", &rp, &ri, &resolve), Some(0xE0));
    assert_eq!(find_class_by_name(BASE, OFF, "Nope", &rp, &ri, &resolve), None);
    let (res, _) = find_classes_by_names(BASE, OFF, &[], &rp, &ri, &resolve);
    assert!(res.is_empty());
}

#[test]
fn names_stop_being_resolved_once_all_found() {
    let (p, n) = object_memory(&[0xA0, 0xB0, 0xC0]);
    let rp = |a: usize| *p.get(&a).unwrap_or(&0);
    let ri = |a: usize| n.get(&a).copied();
    let calls = Cell::new(0);
    let resolve = |_mb: usize, a: usize| {
        calls.set(calls.get() + 1);
        Some(if a == 0xA0 + UOBJECT_NAME_OFFSET { "First".to_string() } else { "Other".to_string() })
    };
    let (res, _) = find_classes_by_names(BASE, OFF, &["First"], &rp, &ri, &resolve);
    assert_eq!(res, vec![Some(0xA0)]);
    assert_eq!(calls.get(), 1);
}

/// A SuperStruct chain: `chain[i]`'s super is `chain[i + 1]`.
fn chain_memory(chain: &[usize]) -> HashMap<usize, usize> {
    let mut m = HashMap::new();
    for w in chain.windows(2) {
        m.insert(w[0] + USTRUCT_SUPER_OFFSET, w[1]);
    }
    m
}

#[test]
fn subclass_walks_and_caches() {
    let m = chain_memory(&[0x100, 0x200, 0x300, 0x400]);
    let rp = |a: usize| *m.get(&a).unwrap_or(&0);
    let mut cache = SubclassCache::new();
    assert!(is_subclass_of(0x100, 0x300, &mut cache, &rp));
    assert!(is_subclass_of(0x100, 0x100, &mut cache, &rp));
    assert!(!is_subclass_of(0x300, 0x100, &mut cache, &rp));
    assert!(!is_subclass_of(0, 0x100, &mut cache, &rp));
    assert!(!is_subclass_of(0x100, 0, &mut cache, &rp));
    assert_eq!(cache.get(0x100, 0x300), Some(true));
    assert_eq!(cache.get(0x300, 0x100), Some(false));
    assert_eq!(cache.get(0, 0x100), None);
    // a cached answer wins over memory
    let empty = HashMap::<usize, usize>::new();
    let rp2 = |a: usize| *empty.get(&a).unwrap_or(&0);
    assert!(is_subclass_of(0x100, 0x300, &mut cache, &rp2));
    let mut fresh = SubclassCache::new();
    assert!(!is_subclass_of(0x100, 0x300, &mut fresh, &rp2));
    fresh.insert(5, 6, true);
    assert_eq!(fresh.get(5, 6), Some(true));
    assert_eq!(fresh.get(5, 7), None);
}

#[test]
fn subclass_depth_limit() {
    let chain: Vec<usize> = (1..=40usize).map(|k| k * 0x1000).collect();
    let m = chain_memory(&chain);
    let rp = |a: usize| *m.get(&a).unwrap_or(&0);
    let mut cache = SubclassCache::new();
    // chain[32] is 32 links up: still found; chain[33] is too far
    assert!(is_subclass_of(chain[0], chain[32], &mut cache, &rp));
    assert!(!is_subclass_of(chain[0], chain[33], &mut cache, &rp));
}

#[test]
fn class_filter_drops_null_roots_and_classifies() {
    let m = chain_memory(&[0x100, 0x200, 0x300, 0x400]);
    let rp = |a: usize| *m.get(&a).unwrap_or(&0);
    let mut f = ClassFilter::new(vec![0x400, 0, 0x200]);
    assert_eq!(f.roots, vec![0x400, 0x200]);
    // the first root met walking up from 0x100 is 0x200, though 0x400 is listed first
    assert_eq!(f.classify(0x100, &rp), Some(0x200));
    assert_eq!(f.classify(0x300, &rp), Some(0x400));
    assert_eq!(f.classify(0x999, &rp), None);
    assert_eq!(f.classify(0, &rp), None);
    assert!(f.matches(0x200, &rp));
    assert!(!f.matches(0x999, &rp));
    // answers are cached: a second call gives the same answer with other memory
    let empty = HashMap::<usize, usize>::new();
    let rp2 = |a: usize| *empty.get(&a).unwrap_or(&0);
    assert_eq!(f.classify(0x100, &rp2), Some(0x200));
    let mut g = ClassFilter::new(vec![0, 0]);
    assert!(g.roots.is_empty());
    assert_eq!(g.classify(0x100, &rp), None);
}

#[test]
fn class_filter_depth_limit() {
    let chain: Vec<usize> = (1..=40usize).map(|k| k * 0x1000).collect();
    let m = chain_memory(&chain);
    let rp = |a: usize| *m.get(&a).unwrap_or(&0);
    let mut f = ClassFilter::new(vec![chain[31]]);
    assert_eq!(f.classify(chain[0], &rp), Some(chain[31]));
    let mut g = ClassFilter::new(vec![chain[32]]);
    assert_eq!(g.classify(chain[0], &rp), None);
}

#[test]
fn root_order_does_not_matter() {
    let m = chain_memory(&[0x100, 0x200, 0x300, 0x400]);
    let rp = |a: usize| *m.get(&a).unwrap_or(&0);
    let mut a = ClassFilter::new(vec![0x200, 0x400]);
    let mut b = ClassFilter::new(vec![0x400, 0x200, 0x400]);
    for c in [0x100usize, 0x200, 0x300, 0x400, 0x500] {
        assert_eq!(a.classify(c, &rp), b.classify(c, &rp));
    }
}

#[test]
fn more_roots_keep_matches() {
    let m = chain_memory(&[0x100, 0x200, 0x300, 0x400]);
    let rp = |a: usize| *m.get(&a).unwrap_or(&0);
    let mut small = ClassFilter::new(vec![0x300, 0]);
    let mut big = ClassFilter::new(vec![0x200, 0x300, 0x900]);
    for c in [0x100usize, 0x200, 0x300, 0x400, 0x900, 0x500, 0] {
        if small.matches(c, &rp) {
            assert!(big.matches(c, &rp));
        }
    }
    assert!(!small.matches(0x900, &rp));
    assert!(big.matches(0x900, &rp));
}

#[test]
fn probe_and_walk_read_the_same_fields() {
    let (p, n) = object_memory(&[0xA0, 0xB0, 0xC0]);
    let rp = |a: usize| *p.get(&a).unwrap_or(&0);
    // the i32 view of the same memory: the chunk pointer's halves and the count
    let mut words = n.clone();
    words.insert(GOBJ, (CHUNKS & 0xFFFF_FFFF) as u32 as i32);
    words.insert(GOBJ + 4, (CHUNKS >> 32) as u32 as i32);
    let ri = |a: usize| words.get(&a).copied();
    let (stats, _) = walk_gobjects(BASE, OFF, &rp, &ri);
    let probe = probe_gobjects_layout(BASE, OFF, &ri);
    assert_eq!(probe[5], stats.num_elements);
    let joined = ((probe[0] as u32 as u64) | ((probe[1] as u32 as u64) << 32)) as usize;
    assert_eq!(joined, stats.chunks_array);
}
