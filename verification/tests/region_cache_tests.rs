use epn_mod::region_cache::{
    clear_region_cache, is_readable, read_i32_at, read_u8_at, safe_read_i32, safe_read_ptr,
    RegionCache, RegionInfo, MEM_COMMIT, PAGE_GUARD, PAGE_NOACCESS,
};
use std::cell::Cell;

fn committed(base: usize, size: usize) -> RegionInfo {
    RegionInfo { base_address: base, region_size: size, state: MEM_COMMIT, protect: 0x04 }
}

#[test]
fn empty_cache_holds_nothing() {
    let c = RegionCache::new();
    assert!(!c.contains(0x20000, 0x20008));
}

#[test]
fn inserted_region_holds_its_subranges() {
    let mut c = RegionCache::new();
    c.insert(0x10000, 0x20000);
    assert!(c.contains(0x10000, 0x20000));
    assert!(c.contains(0x18000, 0x18008));
    assert!(!c.contains(0x0F000, 0x10008));
    assert!(!c.contains(0x1FFF8, 0x20001));
    c.clear();
    assert!(!c.contains(0x18000, 0x18008));
}

#[test]
fn oldest_region_is_dropped_first() {
    let mut c = RegionCache::new();
    for k in 0..32usize {
        c.insert(0x100000 * (k + 1), 0x100000 * (k + 1) + 0x1000);
    }
    assert!(c.contains(0x100000, 0x100008));
    c.insert(0x9000_0000, 0x9000_1000);
    assert!(!c.contains(0x100000, 0x100008));
    assert!(c.contains(0x200000, 0x200008));
    assert!(c.contains(0x9000_0000, 0x9000_0008));
    c.insert(0xA000_0000, 0xA000_1000);
    assert!(!c.contains(0x200000, 0x200008));
    assert!(c.contains(0x300000, 0x300008));
}

#[test]
fn readability_bounds_and_query() {
    let asked = Cell::new(0);
    let query = |a: usize| {
        asked.set(asked.get() + 1);
        if a >= 0x40000 && a < 0x50000 { Some(committed(0x40000, 0x10000)) } else { None }
    };
    let mut c = RegionCache::new();
    assert!(!is_readable(&mut c, 0xFFFF, 8, &query));
    assert!(!is_readable(&mut c, 0x8000_0000_0000, 8, &query));
    assert_eq!(asked.get(), 0);
    assert!(is_readable(&mut c, 0x40010, 8, &query));
    assert_eq!(asked.get(), 1);
    // now answered from the cache
    assert!(is_readable(&mut c, 0x4FFF0, 16, &query));
    assert_eq!(asked.get(), 1);
    // a range running past the region is not readable (the region is cached anyway)
    assert!(!is_readable(&mut c, 0x4FFF8, 16, &query));
    assert_eq!(asked.get(), 2);
    assert!(!is_readable(&mut c, 0x60000, 8, &query));
    clear_region_cache(&mut c);
    assert!(is_readable(&mut c, 0x40010, 8, &query));
    assert_eq!(asked.get(), 4);
}

#[test]
fn unusable_regions_are_not_readable_or_cached() {
    let mut c = RegionCache::new();
    let reserved = |_a: usize| Some(RegionInfo { state: 0x2000, ..committed(0x40000, 0x10000) });
    assert!(!is_readable(&mut c, 0x40010, 8, &reserved));
    let guard = |_a: usize| Some(RegionInfo { protect: PAGE_GUARD | 0x04, ..committed(0x40000, 0x10000) });
    assert!(!is_readable(&mut c, 0x40010, 8, &guard));
    let noaccess = |_a: usize| Some(RegionInfo { protect: PAGE_NOACCESS, ..committed(0x40000, 0x10000) });
    assert!(!is_readable(&mut c, 0x40010, 8, &noaccess));
    assert!(!c.contains(0x40010, 0x40018));
}

#[test]
fn checked_reads() {
    let mut c = RegionCache::new();
    let query = |a: usize| if a >= 0x40000 && a < 0x50000 { Some(committed(0x40000, 0x10000)) } else { None };
    let load_ptr = |a: usize| a * 2;
    let load_i32 = |a: usize| a as i32 - 7;
    let load_u8 = |_a: usize| 0xABu8;
    assert_eq!(safe_read_ptr(&mut c, 0x40000, &query, &load_ptr), 0x80000);
    assert_eq!(safe_read_ptr(&mut c, 0x60000, &query, &load_ptr), 0);
    assert_eq!(read_i32_at(&mut c, 0x40010, &query, &load_i32), Some(0x40009));
    assert_eq!(read_i32_at(&mut c, 0x60000, &query, &load_i32), None);
    assert_eq!(safe_read_i32(&mut c, 0x40010, &query, &load_i32), 0x40009);
    assert_eq!(safe_read_i32(&mut c, 0x60000, &query, &load_i32), 0);
    assert_eq!(read_u8_at(&mut c, 0x4FFFF, &query, &load_u8), Some(0xAB));
    assert_eq!(read_u8_at(&mut c, 0x5000, &query, &load_u8), None);
}

#[test]
fn cache_hit_agrees_with_query() {
    let query = |a: usize| {
        if a >= 0x40000 && a < 0x50000 { Some(committed(0x40000, 0x10000)) } else { None }
    };
    let mut warm = RegionCache::new();
    assert!(is_readable(&mut warm, 0x40010, 8, &query));
    for (addr, size) in [(0x40000usize, 8usize), (0x4FFF0, 16), (0x4FFF8, 16), (0x3FFF8, 16), (0x60000, 4)] {
        let mut cold = RegionCache::new();
        assert_eq!(is_readable(&mut warm, addr, size, &query), is_readable(&mut cold, addr, size, &query));
    }
}
