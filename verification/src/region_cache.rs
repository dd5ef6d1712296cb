//! Readability of addresses, with a small FIFO cache of committed regions.
//!
//! Asking the system about a region is done by a query (in the game this is
//! `VirtualQuery`); raw loads are done by a loader. Both are handed in.
use vstd::prelude::*;

verus! {

/// Number of regions the cache holds.
pub const REGION_CACHE_SIZE: usize = 32;
/// Lowest address that is ever taken as readable.
pub const MIN_READABLE_ADDRESS: usize = 0x10000;
/// Highest address that is ever taken as readable.
pub const MAX_READABLE_ADDRESS: u64 = 0x7FFF_FFFF_FFFF;
/// `MEM_COMMIT`: the region's pages are committed.
pub const MEM_COMMIT: u32 = 0x1000;
/// `PAGE_NOACCESS` protection flag.
pub const PAGE_NOACCESS: u32 = 0x01;
/// `PAGE_GUARD` protection flag.
pub const PAGE_GUARD: u32 = 0x100;

/// A readable address range `[base, end)`.
#[derive(Clone, Copy)]
pub struct ValidRegion {
    pub base: usize,
    pub end: usize,
}

/// What the system reports about the region that holds an address.
#[derive(Clone, Copy)]
pub struct RegionInfo {
    pub base_address: usize,
    pub region_size: usize,
    pub state: u32,
    pub protect: u32,
}

/// Some region of `regions` holds all of `[addr, end)`.
pub open spec fn covers(regions: Seq<ValidRegion>, addr: usize, end: usize) -> bool {
    exists|i: int| 0 <= i < regions.len() && #[trigger] regions[i].base <= addr && end <= regions[i].end
}

/// The cache's regions after adding `r`: appended, and when the cache was
/// full the oldest region dropped.
pub open spec fn fifo_push(regions: Seq<ValidRegion>, r: ValidRegion) -> Seq<ValidRegion> {
    if regions.len() < REGION_CACHE_SIZE {
        regions.push(r)
    } else {
        regions.drop_first().push(r)
    }
}

/// A ring buffer of the most recently found readable regions.
pub struct RegionCache {
    entries: [ValidRegion; 32],
    used: usize,
    next_slot: usize,
}

impl RegionCache {
    #[verifier::type_invariant]
    spec fn well_formed(self) -> bool {
        &&& self.used <= REGION_CACHE_SIZE
        &&& self.next_slot < REGION_CACHE_SIZE
        &&& self.used < REGION_CACHE_SIZE ==> self.next_slot == self.used
    }

    /// Slot of the oldest cached region.
    spec fn start(self) -> int {
        (self.next_slot + REGION_CACHE_SIZE - self.used) % (REGION_CACHE_SIZE as int)
    }

    /// The cached regions, oldest first.
    pub closed spec fn regions(self) -> Seq<ValidRegion> {
        Seq::new(self.used as nat, |j: int| self.entries@[(self.start() + j) % (REGION_CACHE_SIZE as int)])
    }

    /// An empty cache.
    pub fn new() -> (c: Self)
        ensures
            c.regions() == Seq::<ValidRegion>::empty(),
    {
        let c = RegionCache { entries: [ValidRegion { base: 0, end: 0 }; 32], used: 0, next_slot: 0 };
        assert(c.regions() =~= Seq::<ValidRegion>::empty());
        c
    }

    /// Forgets every cached region.
    pub fn clear(&mut self)
        ensures
            final(self).regions() == Seq::<ValidRegion>::empty(),
    {
        let entries = self.entries;
        *self = RegionCache { entries, used: 0, next_slot: 0 };
        assert(self.regions() =~= Seq::<ValidRegion>::empty());
    }

    /// Whether a cached region holds all of `[addr, end)`.
    pub fn contains(&self, addr: usize, end: usize) -> (r: bool)
        ensures
            r == covers(self.regions(), addr, end),
    {
        proof {
            use_type_invariant(self);
        }
        let start = (self.next_slot + REGION_CACHE_SIZE - self.used) % REGION_CACHE_SIZE;
        let mut j: usize = 0;
        while j < self.used
            invariant
                start == self.start(),
                0 <= j <= self.used,
                self.used <= REGION_CACHE_SIZE,
                forall|k: int| 0 <= k < j ==> !(#[trigger] self.regions()[k].base <= addr && end <= self.regions()[k].end),
            decreases self.used - j,
        {
            let r = self.entries[(start + j) % REGION_CACHE_SIZE];
            assert(r == self.regions()[j as int]);
            if addr >= r.base && end <= r.end {
                return true;
            }
            j = j + 1;
        }
        false
    }

    /// Adds `[base, end)` as the newest region, dropping the oldest one when
    /// the cache is full.
    pub fn insert(&mut self, base: usize, end: usize)
        ensures
            final(self).regions() == fifo_push(old(self).regions(), ValidRegion { base, end }),
            final(self).regions().len() <= REGION_CACHE_SIZE,
    {
        proof {
            use_type_invariant(&*self);
        }
        let ghost before = self.regions();
        let mut entries = self.entries;
        let slot = self.next_slot;
        entries[slot] = ValidRegion { base, end };
        let next_slot = (slot + 1) % REGION_CACHE_SIZE;
        let used = if self.used < REGION_CACHE_SIZE {
            self.used + 1
        } else {
            self.used
        };
        *self = RegionCache { entries, used, next_slot };
        assert(self.regions() =~= fifo_push(before, ValidRegion { base, end }));
    }
}


/// `addr` lies in the range of addresses that can ever be readable.
pub open spec fn in_readable_range(addr: usize) -> bool {
    MIN_READABLE_ADDRESS <= addr && addr as u64 <= MAX_READABLE_ADDRESS
}

/// A region the query reports is usable: committed, and neither
/// no-access nor a guard page.
pub open spec fn region_usable(info: RegionInfo) -> bool {
    info.state == MEM_COMMIT && info.protect & (PAGE_NOACCESS | PAGE_GUARD) == 0
}

/// After a cache miss and the query's answer `q`: whether `size` bytes at
/// `addr` are readable, and the cached regions. A usable region is cached
/// whether or not it holds the whole range.
pub open spec fn after_query(
    regions: Seq<ValidRegion>,
    addr: usize,
    size: usize,
    q: Option<RegionInfo>,
) -> (bool, Seq<ValidRegion>) {
    match q {
        None => (false, regions),
        Some(info) => if !region_usable(info) {
            (false, regions)
        } else {
            let region_end = info.base_address.saturating_add(info.region_size);
            (
                addr.saturating_add(size) <= region_end,
                fifo_push(regions, ValidRegion { base: info.base_address, end: region_end }),
            )
        },
    }
}

/// One readability check of `size` bytes at `addr`, from the cached regions
/// `before` to `after`, answering `ok`: out-of-range addresses are never
/// readable; a cached region that holds the range answers yes; otherwise the
/// query is asked about `addr`.
pub open spec fn readable_step<Q: Fn(usize) -> Option<RegionInfo>>(
    query: Q,
    before: Seq<ValidRegion>,
    addr: usize,
    size: usize,
    ok: bool,
    after: Seq<ValidRegion>,
) -> bool {
    if !in_readable_range(addr) {
        !ok && after == before
    } else if covers(before, addr, addr.saturating_add(size)) {
        ok && after == before
    } else {
        exists|q: Option<RegionInfo>|
            #[trigger] call_ensures(query, (addr,), q) && (ok, after) == after_query(before, addr, size, q)
    }
}

/// Whether `size` bytes at `addr` can be read (see `readable_step`).
pub fn is_readable<Q: Fn(usize) -> Option<RegionInfo>>(
    cache: &mut RegionCache,
    addr: usize,
    size: usize,
    query: &Q,
) -> (ok: bool)
    requires
        forall|a: usize| call_requires(*query, (a,)),
    ensures
        readable_step(*query, old(cache).regions(), addr, size, ok, final(cache).regions()),
{
    if addr < MIN_READABLE_ADDRESS || addr as u64 > MAX_READABLE_ADDRESS {
        return false;
    }
    let end = addr.saturating_add(size);
    if cache.contains(addr, end) {
        return true;
    }
    let q = query(addr);
    match q {
        None => false,
        Some(info) => {
            if info.state != MEM_COMMIT {
                return false;
            }
            let bad = PAGE_NOACCESS | PAGE_GUARD;
            if info.protect & bad != 0 {
                return false;
            }
            let region_base = info.base_address;
            let region_end = region_base.saturating_add(info.region_size);
            cache.insert(region_base, region_end);
            end <= region_end
        },
    }
}

/// The cached regions agree with the query: for every address inside a
/// cached region, the query reports a usable region that reaches at least
/// to the cached region's end.
pub open spec fn cache_agrees_with_query<Q: Fn(usize) -> Option<RegionInfo>>(
    query: Q,
    regions: Seq<ValidRegion>,
) -> bool {
    forall|i: int, a: usize, q: Option<RegionInfo>|
        0 <= i < regions.len() && regions[i].base <= a && a < regions[i].end && #[trigger] call_ensures(
            query,
            (a,),
            q,
        ) ==> (q matches Some(info) && region_usable(info) && #[trigger] regions[i].end <= info.base_address.saturating_add(
            info.region_size,
        ))
}

/// A check answered from the cache agrees with what the query would say:
/// when the cached regions agree with the query, a readability check of a
/// nonempty range (one that does not saturate at `addr`) gives the same answer as one made after clearing the
/// cache.
pub proof fn lemma_cache_answers_as_query<Q: Fn(usize) -> Option<RegionInfo>>(
    query: Q,
    regions: Seq<ValidRegion>,
    addr: usize,
    size: usize,
    ok: bool,
    after: Seq<ValidRegion>,
    ok_cleared: bool,
    after_cleared: Seq<ValidRegion>,
)
    requires
        crate::reader::is_reader(query),
        cache_agrees_with_query(query, regions),
        addr < addr.saturating_add(size),
        readable_step(query, regions, addr, size, ok, after),
        readable_step(query, Seq::<ValidRegion>::empty(), addr, size, ok_cleared, after_cleared),
    ensures
        ok == ok_cleared,
{
    let end = addr.saturating_add(size);
    if in_readable_range(addr) {
        assert(!covers(Seq::<ValidRegion>::empty(), addr, end));
        let qc = choose|q: Option<RegionInfo>|
            #[trigger] call_ensures(query, (addr,), q) && (ok_cleared, after_cleared) == after_query(
                Seq::<ValidRegion>::empty(),
                addr,
                size,
                q,
            );
        if covers(regions, addr, end) {
            let i = choose|i: int| 0 <= i < regions.len() && #[trigger] regions[i].base <= addr && end <= regions[i].end;
            assert(addr < end);
            assert(regions[i].end <= qc->0.base_address.saturating_add(qc->0.region_size));
        } else {
            let q = choose|q: Option<RegionInfo>|
                #[trigger] call_ensures(query, (addr,), q) && (ok, after) == after_query(regions, addr, size, q);
            assert(q == qc);
        }
    }
}

/// The addresses that can ever be readable are exactly
/// `0x10000..=0x7FFF_FFFF_FFFF`.
pub proof fn lemma_readable_range_bounds(addr: usize)
    ensures
        in_readable_range(addr) <==> (0x10000 <= addr && addr <= 0x7FFF_FFFF_FFFFint),
{
}

/// An address outside `0x10000..=0x7FFF_FFFF_FFFF` is never readable, and
/// checking it leaves the cache as it was.
pub proof fn lemma_out_of_range_unreadable<Q: Fn(usize) -> Option<RegionInfo>>(
    query: Q,
    before: Seq<ValidRegion>,
    addr: usize,
    size: usize,
    ok: bool,
    after: Seq<ValidRegion>,
)
    requires
        addr < 0x10000 || addr > 0x7FFF_FFFF_FFFFint,
        readable_step(query, before, addr, size, ok, after),
    ensures
        !ok,
        after == before,
{
}

/// In `0x10000..=0x7FFF_FFFF_FFFF`, a range that the query places inside a
/// committed region (state `0x1000`) without the no-access or guard flags
/// (`0x01`, `0x100`) is readable, whatever the cache holds.
pub proof fn lemma_readable_when_query_allows<Q: Fn(usize) -> Option<RegionInfo>>(
    query: Q,
    before: Seq<ValidRegion>,
    addr: usize,
    size: usize,
    ok: bool,
    after: Seq<ValidRegion>,
)
    requires
        0x10000 <= addr,
        addr <= 0x7FFF_FFFF_FFFFint,
        forall|q: Option<RegionInfo>| #[trigger] call_ensures(query, (addr,), q) ==> (q matches Some(info) && info.state == 0x1000u32 && info.protect & 0x101u32 == 0u32 && addr.saturating_add(size) <= info.base_address.saturating_add(info.region_size)),
        readable_step(query, before, addr, size, ok, after),
    ensures
        ok,
{
    assert(PAGE_NOACCESS | PAGE_GUARD == 0x101u32) by (bit_vector);
}

/// In `0x10000..=0x7FFF_FFFF_FFFF`, with nothing cached that holds the
/// range, the check is false when the query reports no region, an
/// uncommitted one, one with the no-access or guard flag, or one that ends
/// before the range does; only the last of these is cached.
pub proof fn lemma_unreadable_when_query_refuses<Q: Fn(usize) -> Option<RegionInfo>>(
    query: Q,
    before: Seq<ValidRegion>,
    addr: usize,
    size: usize,
    ok: bool,
    after: Seq<ValidRegion>,
)
    requires
        !covers(before, addr, addr.saturating_add(size)),
        forall|q: Option<RegionInfo>| #[trigger] call_ensures(query, (addr,), q) ==> (q matches Some(info) ==> (info.state != 0x1000u32 || info.protect & 0x101u32 != 0u32 || info.base_address.saturating_add(info.region_size) < addr.saturating_add(size))),
        readable_step(query, before, addr, size, ok, after),
    ensures
        !ok,
{
    assert(PAGE_NOACCESS | PAGE_GUARD == 0x101u32) by (bit_vector);
}

/// A range that a cached region holds is readable without asking the
/// query, and the cache stays as it was.
pub proof fn lemma_cached_range_readable<Q: Fn(usize) -> Option<RegionInfo>>(
    query: Q,
    before: Seq<ValidRegion>,
    addr: usize,
    size: usize,
    ok: bool,
    after: Seq<ValidRegion>,
    i: int,
)
    requires
        0x10000 <= addr,
        addr <= 0x7FFF_FFFF_FFFFint,
        0 <= i < before.len(),
        before[i].base <= addr,
        addr.saturating_add(size) <= before[i].end,
        readable_step(query, before, addr, size, ok, after),
    ensures
        ok,
        after == before,
{
}

/// When nothing cached holds the range, a committed region without the
/// no-access or guard flag that the query reports becomes the newest cached
/// region, the oldest being dropped when the cache is full.
pub proof fn lemma_usable_region_cached<Q: Fn(usize) -> Option<RegionInfo>>(
    query: Q,
    before: Seq<ValidRegion>,
    addr: usize,
    size: usize,
    ok: bool,
    after: Seq<ValidRegion>,
    info: RegionInfo,
)
    requires
        crate::reader::is_reader(query),
        0x10000 <= addr,
        addr <= 0x7FFF_FFFF_FFFFint,
        !covers(before, addr, addr.saturating_add(size)),
        call_ensures(query, (addr,), Some(info)),
        info.state == 0x1000u32,
        info.protect & 0x101u32 == 0u32,
        readable_step(query, before, addr, size, ok, after),
    ensures
        after.len() > 0,
        after.last() == (ValidRegion { base: info.base_address, end: info.base_address.saturating_add(info.region_size) }),
        after.len() == (if before.len() < 32 { before.len() + 1 } else { before.len() }),
        ok == (addr.saturating_add(size) <= info.base_address.saturating_add(info.region_size)),
{
    assert(PAGE_NOACCESS | PAGE_GUARD == 0x101u32) by (bit_vector);
    let q = choose|q: Option<RegionInfo>|
        #[trigger] call_ensures(query, (addr,), q) && (ok, after) == after_query(before, addr, size, q);
    assert(q == Some(info));
}

/// Reads a pointer at `addr`, or gives zero when 8 bytes there cannot be read.
pub fn safe_read_ptr<Q: Fn(usize) -> Option<RegionInfo>, L: Fn(usize) -> usize>(
    cache: &mut RegionCache,
    addr: usize,
    query: &Q,
    load: &L,
) -> (v: usize)
    requires
        forall|a: usize| call_requires(*query, (a,)),
        forall|a: usize| call_requires(*load, (a,)),
    ensures
        (readable_step(*query, old(cache).regions(), addr, 8, true, final(cache).regions())
            && call_ensures(*load, (addr,), v)) || (readable_step(
            *query,
            old(cache).regions(),
            addr,
            8,
            false,
            final(cache).regions(),
        ) && v == 0),
{
    if !is_readable(cache, addr, 8, query) {
        return 0;
    }
    load(addr)
}

/// Reads an `i32` at `addr`, or gives `None` when 4 bytes there cannot be
/// read.
pub fn read_i32_at<Q: Fn(usize) -> Option<RegionInfo>, L: Fn(usize) -> i32>(
    cache: &mut RegionCache,
    addr: usize,
    query: &Q,
    load: &L,
) -> (v: Option<i32>)
    requires
        forall|a: usize| call_requires(*query, (a,)),
        forall|a: usize| call_requires(*load, (a,)),
    ensures
        match v {
            Some(x) => readable_step(*query, old(cache).regions(), addr, 4, true, final(cache).regions())
                && call_ensures(*load, (addr,), x),
            None => readable_step(*query, old(cache).regions(), addr, 4, false, final(cache).regions()),
        },
{
    if !is_readable(cache, addr, 4, query) {
        return None;
    }
    Some(load(addr))
}

/// Reads an `i32` at `addr`, or gives zero when 4 bytes there cannot be read.
pub fn safe_read_i32<Q: Fn(usize) -> Option<RegionInfo>, L: Fn(usize) -> i32>(
    cache: &mut RegionCache,
    addr: usize,
    query: &Q,
    load: &L,
) -> (v: i32)
    requires
        forall|a: usize| call_requires(*query, (a,)),
        forall|a: usize| call_requires(*load, (a,)),
    ensures
        (readable_step(*query, old(cache).regions(), addr, 4, true, final(cache).regions())
            && call_ensures(*load, (addr,), v)) || (readable_step(
            *query,
            old(cache).regions(),
            addr,
            4,
            false,
            final(cache).regions(),
        ) && v == 0),
{
    match read_i32_at(cache, addr, query, load) {
        Some(x) => x,
        None => 0,
    }
}

/// Reads a byte at `addr`, or gives `None` when it cannot be read.
pub fn read_u8_at<Q: Fn(usize) -> Option<RegionInfo>, L: Fn(usize) -> u8>(
    cache: &mut RegionCache,
    addr: usize,
    query: &Q,
    load: &L,
) -> (v: Option<u8>)
    requires
        forall|a: usize| call_requires(*query, (a,)),
        forall|a: usize| call_requires(*load, (a,)),
    ensures
        match v {
            Some(x) => readable_step(*query, old(cache).regions(), addr, 1, true, final(cache).regions())
                && call_ensures(*load, (addr,), x),
            None => readable_step(*query, old(cache).regions(), addr, 1, false, final(cache).regions()),
        },
{
    if !is_readable(cache, addr, 1, query) {
        return None;
    }
    Some(load(addr))
}

/// Forgets every cached region.
pub fn clear_region_cache(cache: &mut RegionCache)
    ensures
        final(cache).regions() == Seq::<ValidRegion>::empty(),
{
    cache.clear();
}


/// The cached regions after adding each of `rs`, in order.
pub open spec fn push_all(regions: Seq<ValidRegion>, rs: Seq<ValidRegion>) -> Seq<ValidRegion>
    decreases rs.len(),
{
    if rs.len() == 0 {
        regions
    } else {
        fifo_push(push_all(regions, rs.drop_last()), rs.last())
    }
}

/// A region just added holds every range inside it: a check of such a range
/// is answered from the cache.
pub proof fn lemma_insert_then_covers(regions: Seq<ValidRegion>, r: ValidRegion, addr: usize, end: usize)
    requires
        r.base <= addr,
        end <= r.end,
    ensures
        covers(fifo_push(regions, r), addr, end),
{
    let n = fifo_push(regions, r);
    assert(n[n.len() - 1] == r);
}

/// After clearing, no range is answered from the cache.
pub proof fn lemma_cleared_covers_nothing(addr: usize, end: usize)
    ensures
        !covers(Seq::<ValidRegion>::empty(), addr, end),
{
}

/// The cache never holds more than `REGION_CACHE_SIZE` regions, and a region
/// stays cached while fewer than `REGION_CACHE_SIZE` regions are added after
/// it (the oldest region is the one dropped).
pub proof fn lemma_fifo_retains(regions: Seq<ValidRegion>, r: ValidRegion, later: Seq<ValidRegion>)
    requires
        regions.len() <= REGION_CACHE_SIZE,
        later.len() < REGION_CACHE_SIZE,
    ensures
        push_all(fifo_push(regions, r), later).len() <= REGION_CACHE_SIZE,
        push_all(fifo_push(regions, r), later).contains(r),
{
    lemma_fifo_position(fifo_push(regions, r), later, r, 1);
}

/// An element `d` places from the end of the cache moves one place per
/// region added, and stays while that is within `REGION_CACHE_SIZE`.
proof fn lemma_fifo_position(s: Seq<ValidRegion>, later: Seq<ValidRegion>, r: ValidRegion, d: int)
    requires
        s.len() <= REGION_CACHE_SIZE,
        1 <= d <= s.len(),
        s[s.len() - d] == r,
        d + later.len() <= REGION_CACHE_SIZE,
    ensures
        push_all(s, later).len() <= REGION_CACHE_SIZE,
        push_all(s, later).len() >= d + later.len(),
        push_all(s, later)[push_all(s, later).len() - (d + later.len())] == r,
        push_all(s, later).contains(r),
    decreases later.len(),
{
    if later.len() > 0 {
        let prev = later.drop_last();
        lemma_fifo_position(s, prev, r, d);
        let p = push_all(s, prev);
        let n = fifo_push(p, later.last());
        assert(push_all(s, later) == n);
        let pos = p.len() - (d + prev.len());
        if p.len() < REGION_CACHE_SIZE {
            assert(n[n.len() - (d + later.len())] == p[pos]);
        } else {
            assert(n[n.len() - (d + later.len())] == p[pos]);
        }
        assert(n[n.len() - (d + later.len())] == r);
    } else {
        assert(push_all(s, later) == s);
    }
}

} // verus!
