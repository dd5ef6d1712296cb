//! Class inheritance filter for UE4 (4.27-era) games.
//!
//! The caller supplies the module base and a `GObjects` offset and gets back
//! resolved `UClass*` pointers by name. Filtering afterwards is pointer
//! comparison along the `UStruct::SuperStruct` chain.
//!
//! Memory is reached through readers (see `crate::reader`): a pointer reader
//! that gives zero where memory cannot be read, an `i32` reader that gives
//! `None` there, and a name resolver.
use vstd::prelude::*;
use crate::reader::{ptr_memory, read_value, resolve_name, is_reader, read_at, is_name_resolver, name_at, unwrap_i32, answered, name_answered};
use crate::memory::UOBJECT_NAME_OFFSET;
use crate::text::str_equal;

verus! {

broadcast use {vstd::seq_lib::group_seq_properties, vstd::std_specs::hash::group_hash_axioms};

/// Offset of `UStruct::SuperStruct`.
pub const USTRUCT_SUPER_OFFSET: usize = 0x40;

/// Offset of the chunk-pointer array inside `TUObjectArray`.
pub const OBJ_OBJECTS_OFFSET: usize = 0x00;
/// Offset of `NumElements` inside `TUObjectArray`.
pub const NUM_ELEMENTS_OFFSET: usize = 0x14;
/// Size of one `FUObjectItem`.
pub const ITEM_SIZE: usize = 0x18;
/// Number of items in one chunk of the object array.
pub const CHUNK_ENTRIES: usize = 0x10000;
/// Largest element count that is taken as plausible.
pub const MAX_OBJECTS_SANITY_CAP: i32 = 4_000_000;
/// Longest SuperStruct chain that is followed.
pub const MAX_SUPER_DEPTH: u32 = 32;

/// Reads the eight `i32` values at `GObjects + 0x00, 0x04, ..., 0x1C`
/// (zero where memory cannot be read); all zeros when the module base is zero.
pub fn probe_gobjects_layout<I: Fn(usize) -> Option<i32>>(
    module_base: usize,
    gobjects_offset: usize,
    read_i32: &I,
) -> (out: [i32; 8])
    requires
        is_reader(*read_i32),
    ensures
        out@ == probe_spec(module_base, gobjects_offset, *read_i32),
        module_base != 0 ==> forall|i: int|
            0 <= i < 8 ==> answered(*read_i32, #[trigger] module_base.wrapping_add(gobjects_offset).wrapping_add((i * 4) as usize)),
{
    let mut out = [0i32; 8];
    if module_base == 0 {
        assert(out@ =~= probe_spec(module_base, gobjects_offset, *read_i32));
        return out;
    }
    let gobjects = module_base.wrapping_add(gobjects_offset);
    let mut i: usize = 0;
    while i < 8
        invariant
            is_reader(*read_i32),
            gobjects == module_base.wrapping_add(gobjects_offset),
            0 <= i <= 8,
            forall|j: int|
                0 <= j < i ==> out@[j] == unwrap_i32(read_at(*read_i32, gobjects.wrapping_add((j * 4) as usize))),
            forall|j: int| 0 <= j < i ==> answered(*read_i32, #[trigger] gobjects.wrapping_add((j * 4) as usize)),
        decreases 8 - i,
    {
        let off = i * 4;
        let v = read_value(read_i32, gobjects.wrapping_add(off));
        let slot = match v {
            Some(x) => x,
            None => 0,
        };
        out[i] = slot;
        i = i + 1;
    }
    assert(out@ =~= probe_spec(module_base, gobjects_offset, *read_i32));
    out
}



/// The eight `i32` fields at the start of `GObjects`, as
/// `probe_gobjects_layout` reads them: zeros for a null module base, and
/// zero for a field that cannot be read.
pub open spec fn probe_spec<I: Fn(usize) -> Option<i32>>(
    module_base: usize,
    gobjects_offset: usize,
    read_i32: I,
) -> Seq<i32> {
    Seq::new(
        8,
        |i: int|
            if module_base == 0 {
                0i32
            } else {
                unwrap_i32(read_at(read_i32, module_base.wrapping_add(gobjects_offset).wrapping_add((i * 4) as usize)))
            },
    )
}

/// The pointer whose low and high halves are the 32-bit values `lo` and `hi`
/// (little-endian layout).
pub open spec fn pointer_from_halves(lo: i32, hi: i32) -> usize {
    ((lo as u32 as u64) | ((hi as u32 as u64) << 32u64)) as usize
}

/// The pointer reader and the `i32` reader read one memory at `a`: the
/// pointer there is made of the two `i32` values at `a` and `a + 4`.
pub open spec fn same_memory_at<P: Fn(usize) -> usize, I: Fn(usize) -> Option<i32>>(
    read_ptr: P,
    read_i32: I,
    a: usize,
) -> bool {
    read_at(read_ptr, a) == pointer_from_halves(
        unwrap_i32(read_at(read_i32, a)),
        unwrap_i32(read_at(read_i32, a.wrapping_add(4))),
    )
}

/// The probe and the walk read the same fields of `GObjects`: the sixth
/// probed value is the element count the walk found, and, where both
/// readers read one memory, the first two make up the chunk pointer.
pub proof fn lemma_probe_matches_walk<P: Fn(usize) -> usize, I: Fn(usize) -> Option<i32>>(
    module_base: usize,
    gobjects_offset: usize,
    read_ptr: P,
    read_i32: I,
)
    requires
        module_base != 0,
        walk_gobjects_spec(module_base, gobjects_offset, read_ptr, read_i32).0.chunks_array != 0,
        same_memory_at(read_ptr, read_i32, module_base.wrapping_add(gobjects_offset)),
    ensures
        probe_spec(module_base, gobjects_offset, read_i32)[5] == walk_gobjects_spec(
            module_base,
            gobjects_offset,
            read_ptr,
            read_i32,
        ).0.num_elements,
        pointer_from_halves(
            probe_spec(module_base, gobjects_offset, read_i32)[0],
            probe_spec(module_base, gobjects_offset, read_i32)[1],
        ) == walk_gobjects_spec(module_base, gobjects_offset, read_ptr, read_i32).0.chunks_array,
{
    let g = module_base.wrapping_add(gobjects_offset);
    assert(g.wrapping_add(0usize) == g);
    assert(g.wrapping_add((0int * 4) as usize) == g);
    assert(g.wrapping_add((1int * 4) as usize) == g.wrapping_add(4));
    assert(g.wrapping_add((5int * 4) as usize) == g.wrapping_add(NUM_ELEMENTS_OFFSET));
}

/// What a walk over `GObjects` found.
#[derive(Clone, Copy)]
pub struct GObjectsStats {
    pub gobjects_addr: usize,
    pub chunks_array: usize,
    pub num_elements: i32,
    pub num_elements_offset: usize,
    pub visited: i32,
}

impl Default for GObjectsStats {
    fn default() -> (s: Self)
        ensures
            s == zero_stats(),
    {
        GObjectsStats {
            gobjects_addr: 0,
            chunks_array: 0,
            num_elements: 0,
            num_elements_offset: 0,
            visited: 0,
        }
    }
}

/// Statistics with every field zero.
pub open spec fn zero_stats() -> GObjectsStats {
    GObjectsStats {
        gobjects_addr: 0,
        chunks_array: 0,
        num_elements: 0,
        num_elements_offset: 0,
        visited: 0,
    }
}

/// The object pointer in slot `i` of the chunked object array at `chunks`:
/// zero when the slot's chunk pointer is zero.
pub open spec fn object_slot<P: Fn(usize) -> usize>(read_ptr: P, chunks: usize, i: int) -> usize {
    let chunk = read_at(read_ptr, chunks.wrapping_add(((i / CHUNK_ENTRIES as int) * 8) as usize));
    if chunk == 0 {
        0
    } else {
        read_at(read_ptr, chunk.wrapping_add(((i % CHUNK_ENTRIES as int) * ITEM_SIZE as int) as usize))
    }
}

/// The nonzero object pointers among the first `n` slots, in slot order.
pub open spec fn live_objects<P: Fn(usize) -> usize>(read_ptr: P, chunks: usize, n: nat) -> Seq<usize> {
    Seq::new(n, |i: int| object_slot(read_ptr, chunks, i)).filter(|o: usize| o != 0)
}

/// The result of walking `GObjects`: the statistics, and the objects visited
/// in order.
pub open spec fn walk_gobjects_spec<P: Fn(usize) -> usize, I: Fn(usize) -> Option<i32>>(
    module_base: usize,
    gobjects_offset: usize,
    read_ptr: P,
    read_i32: I,
) -> (GObjectsStats, Seq<usize>) {
    let gobjects = module_base.wrapping_add(gobjects_offset);
    let chunks = read_at(read_ptr, gobjects.wrapping_add(OBJ_OBJECTS_OFFSET));
    let num = unwrap_i32(read_at(read_i32, gobjects.wrapping_add(NUM_ELEMENTS_OFFSET)));
    if module_base == 0 {
        (zero_stats(), seq![])
    } else if chunks == 0 {
        (GObjectsStats { gobjects_addr: gobjects, ..zero_stats() }, seq![])
    } else if num <= 0 || num > MAX_OBJECTS_SANITY_CAP {
        (
            GObjectsStats {
                gobjects_addr: gobjects,
                chunks_array: chunks,
                num_elements: num,
                num_elements_offset: NUM_ELEMENTS_OFFSET,
                visited: 0,
            },
            seq![],
        )
    } else {
        let objs = live_objects(read_ptr, chunks, num as nat);
        (
            GObjectsStats {
                gobjects_addr: gobjects,
                chunks_array: chunks,
                num_elements: num,
                num_elements_offset: NUM_ELEMENTS_OFFSET,
                visited: objs.len() as i32,
            },
            objs,
        )
    }
}

/// With a nonzero module base and chunk array, and an element count in
/// `1..=4_000_000`, the walk reports that count and visits the nonzero
/// object pointers of exactly the first that many slots, in slot order.
pub proof fn lemma_walk_covers_counted_slots<P: Fn(usize) -> usize, I: Fn(usize) -> Option<i32>>(
    module_base: usize,
    gobjects_offset: usize,
    read_ptr: P,
    read_i32: I,
)
    requires
        module_base != 0,
        read_at(read_ptr, module_base.wrapping_add(gobjects_offset).wrapping_add(0usize)) != 0,
        0 < unwrap_i32(read_at(read_i32, module_base.wrapping_add(gobjects_offset).wrapping_add(0x14usize))),
        unwrap_i32(read_at(read_i32, module_base.wrapping_add(gobjects_offset).wrapping_add(0x14usize))) <= 4_000_000,
    ensures
        ({
            let g = module_base.wrapping_add(gobjects_offset);
            let num = unwrap_i32(read_at(read_i32, g.wrapping_add(0x14usize)));
            let chunks = read_at(read_ptr, g.wrapping_add(0usize));
            let w = walk_gobjects_spec(module_base, gobjects_offset, read_ptr, read_i32);
            &&& w.0.num_elements == num
            &&& w.0.chunks_array == chunks
            &&& w.1 == Seq::new(num as nat, |i: int| object_slot(read_ptr, chunks, i)).filter(|o: usize| o != 0)
            &&& w.0.visited == w.1.len()
        }),
{
}

/// The walk visits nothing when the element count is not in
/// `1..=4_000_000`.
pub proof fn lemma_walk_empty_outside_count<P: Fn(usize) -> usize, I: Fn(usize) -> Option<i32>>(
    module_base: usize,
    gobjects_offset: usize,
    read_ptr: P,
    read_i32: I,
)
    requires
        unwrap_i32(read_at(read_i32, module_base.wrapping_add(gobjects_offset).wrapping_add(0x14usize))) <= 0
            || unwrap_i32(read_at(read_i32, module_base.wrapping_add(gobjects_offset).wrapping_add(0x14usize)))
            > 4_000_000,
    ensures
        walk_gobjects_spec(module_base, gobjects_offset, read_ptr, read_i32).1.len() == 0,
        walk_gobjects_spec(module_base, gobjects_offset, read_ptr, read_i32).0.visited == 0,
{
}

/// Slot `i` of the object array lives in chunk `i / 0x10000`, whose pointer
/// is the `i / 0x10000`-th entry (8 bytes each) of the chunk array, at
/// entry `i % 0x10000` (0x18 bytes each) of that chunk; a null chunk holds
/// no objects.
pub proof fn lemma_object_slot_layout<P: Fn(usize) -> usize>(read_ptr: P, chunks: usize, i: int)
    requires
        0 <= i,
    ensures
        ({
            let chunk = read_at(read_ptr, chunks.wrapping_add(((i / 0x10000) * 8) as usize));
            object_slot(read_ptr, chunks, i) == if chunk == 0 {
                0usize
            } else {
                read_at(read_ptr, chunk.wrapping_add(((i % 0x10000) * 0x18) as usize))
            }
        }),
{
}

/// The pointers that slot `i` of the object array depends on were asked
/// about.
pub open spec fn slot_answered<P: Fn(usize) -> usize>(read_ptr: P, chunks: usize, i: int) -> bool {
    let chunk_addr = chunks.wrapping_add(((i / CHUNK_ENTRIES as int) * 8) as usize);
    let chunk = read_at(read_ptr, chunk_addr);
    &&& answered(read_ptr, chunk_addr)
    &&& chunk != 0 ==> answered(read_ptr, chunk.wrapping_add(((i % CHUNK_ENTRIES as int) * ITEM_SIZE as int) as usize))
}

/// Every address `walk_gobjects_spec` depends on was asked about.
pub open spec fn walk_answered<P: Fn(usize) -> usize, I: Fn(usize) -> Option<i32>>(
    module_base: usize,
    gobjects_offset: usize,
    read_ptr: P,
    read_i32: I,
) -> bool {
    let gobjects = module_base.wrapping_add(gobjects_offset);
    let chunks = read_at(read_ptr, gobjects.wrapping_add(OBJ_OBJECTS_OFFSET));
    let num = unwrap_i32(read_at(read_i32, gobjects.wrapping_add(NUM_ELEMENTS_OFFSET)));
    &&& module_base != 0 ==> answered(read_ptr, gobjects.wrapping_add(OBJ_OBJECTS_OFFSET))
    &&& module_base != 0 && chunks != 0 ==> answered(read_i32, gobjects.wrapping_add(NUM_ELEMENTS_OFFSET))
    &&& module_base != 0 && chunks != 0 && 0 < num <= MAX_OBJECTS_SANITY_CAP ==> forall|i: int|
        0 <= i < num ==> #[trigger] slot_answered(read_ptr, chunks, i)
}

/// Walks the chunked `GObjects` array and returns its statistics together
/// with every nonzero object pointer, in slot order.
pub fn walk_gobjects<P: Fn(usize) -> usize, I: Fn(usize) -> Option<i32>>(
    module_base: usize,
    gobjects_offset: usize,
    read_ptr: &P,
    read_i32: &I,
) -> (res: (GObjectsStats, Vec<usize>))
    requires
        is_reader(*read_ptr),
        is_reader(*read_i32),
    ensures
        (res.0, res.1@) == walk_gobjects_spec(module_base, gobjects_offset, *read_ptr, *read_i32),
        walk_answered(module_base, gobjects_offset, *read_ptr, *read_i32),
{
    let mut stats = GObjectsStats::default();
    let mut visited: Vec<usize> = Vec::new();
    if module_base == 0 {
        return (stats, visited);
    }
    let gobjects = module_base.wrapping_add(gobjects_offset);
    stats.gobjects_addr = gobjects;

    let chunks_array = read_value(read_ptr, gobjects.wrapping_add(OBJ_OBJECTS_OFFSET));
    stats.chunks_array = chunks_array;
    if chunks_array == 0 {
        return (stats, visited);
    }
    let num_elements = match read_value(read_i32, gobjects.wrapping_add(NUM_ELEMENTS_OFFSET)) {
        Some(n) => n,
        None => 0,
    };
    stats.num_elements = num_elements;
    stats.num_elements_offset = NUM_ELEMENTS_OFFSET;
    if num_elements <= 0 || num_elements > MAX_OBJECTS_SANITY_CAP {
        return (stats, visited);
    }

    let total = num_elements as usize;
    let mut last_chunk_idx = usize::MAX;
    let mut last_chunk_ptr: usize = 0;
    let mut i: usize = 0;
    while i < total
        invariant
            is_reader(*read_ptr),
            0 < total <= MAX_OBJECTS_SANITY_CAP,
            0 <= i <= total,
            last_chunk_idx != usize::MAX ==> last_chunk_ptr == read_at(
                *read_ptr,
                chunks_array.wrapping_add((last_chunk_idx * 8) as usize),
            ) && last_chunk_idx * 8 <= usize::MAX && answered(
                *read_ptr,
                chunks_array.wrapping_add((last_chunk_idx * 8) as usize),
            ),
            forall|k: int| 0 <= k < i ==> #[trigger] slot_answered(*read_ptr, chunks_array, k),
            visited@ == live_objects(*read_ptr, chunks_array, i as nat),
            visited@.len() <= i,
        decreases total - i,
    {
        let chunk_idx = i / CHUNK_ENTRIES;
        let in_chunk = i % CHUNK_ENTRIES;
        let chunk_ptr = if chunk_idx == last_chunk_idx {
            last_chunk_ptr
        } else {
            let p = read_value(read_ptr, chunks_array.wrapping_add(chunk_idx * 8));
            last_chunk_idx = chunk_idx;
            last_chunk_ptr = p;
            p
        };
        let ghost s = Seq::new(i as nat, |k: int| object_slot(*read_ptr, chunks_array, k));
        let ghost pred = |o: usize| o != 0;
        assert(Seq::new((i + 1) as nat, |k: int| object_slot(*read_ptr, chunks_array, k))
            =~= s.push(object_slot(*read_ptr, chunks_array, i as int)));
        proof {
            s.lemma_filter_push(object_slot(*read_ptr, chunks_array, i as int), pred);
        }
        if chunk_ptr == 0 {
            i = i + 1;
            continue;
        }
        let item_addr = chunk_ptr.wrapping_add(in_chunk * ITEM_SIZE);
        let obj_ptr = read_value(read_ptr, item_addr);
        if obj_ptr == 0 {
            i = i + 1;
            continue;
        }
        visited.push(obj_ptr);
        i = i + 1;
    }
    stats.visited = visited.len() as i32;
    (stats, visited)
}


/// The characters of each target name.
pub open spec fn target_views(targets: Seq<&str>) -> Seq<Seq<char>> {
    targets.map_values(|t: &str| t@)
}

/// Slot `i` is the first slot that is still open and whose target is `name`.
pub open spec fn is_first_open_match(
    results: Seq<Option<usize>>,
    targets: Seq<Seq<char>>,
    name: Seq<char>,
    i: int,
) -> bool {
    &&& 0 <= i < results.len()
    &&& results[i] is None
    &&& targets[i] == name
    &&& forall|j: int| 0 <= j < i ==> !(results[j] is None && targets[j] == name)
}

/// An object named `name` fills the first open slot whose target is `name`;
/// when there is none, nothing changes.
pub open spec fn claim(
    results: Seq<Option<usize>>,
    targets: Seq<Seq<char>>,
    name: Seq<char>,
    obj: usize,
) -> Seq<Option<usize>> {
    if exists|i: int| is_first_open_match(results, targets, name, i) {
        let i = choose|i: int| is_first_open_match(results, targets, name, i);
        results.update(i, Some(obj))
    } else {
        results
    }
}

/// The slots after offering each of `objs`, in order, under its name as
/// `names` gives it (an object without a name fills nothing).
pub open spec fn claims_in(
    names: spec_fn(usize) -> Option<String>,
    targets: Seq<Seq<char>>,
    objs: Seq<usize>,
) -> Seq<Option<usize>>
    decreases objs.len(),
{
    if objs.len() == 0 {
        Seq::new(targets.len(), |i: int| None)
    } else {
        let prev = claims_in(names, targets, objs.drop_last());
        match names(objs.last()) {
            Some(n) => claim(prev, targets, n@, objs.last()),
            None => prev,
        }
    }
}

/// The name of each object, as the resolver gives it for the object's
/// `FName` at `UOBJECT_NAME_OFFSET`.
pub open spec fn object_names<N: Fn(usize, usize) -> Option<String>>(
    resolve: N,
    module_base: usize,
) -> spec_fn(usize) -> Option<String> {
    |o: usize| name_at(resolve, module_base, o.wrapping_add(UOBJECT_NAME_OFFSET))
}

/// The slots after offering each of `objs`, in order, under its resolved name
/// (an object whose name does not resolve fills nothing).
pub open spec fn claims_after<N: Fn(usize, usize) -> Option<String>>(
    resolve: N,
    module_base: usize,
    targets: Seq<Seq<char>>,
    objs: Seq<usize>,
) -> Seq<Option<usize>> {
    claims_in(object_names(resolve, module_base), targets, objs)
}

/// The number of open slots.
pub open spec fn open_count(r: Seq<Option<usize>>) -> nat
    decreases r.len(),
{
    if r.len() == 0 {
        0
    } else {
        open_count(r.drop_last()) + if r.last() is None { 1nat } else { 0nat }
    }
}

proof fn lemma_open_count_fill(r: Seq<Option<usize>>, i: int, x: usize)
    requires
        0 <= i < r.len(),
        r[i] is None,
    ensures
        open_count(r.update(i, Some(x))) + 1 == open_count(r),
    decreases r.len(),
{
    let u = r.update(i, Some(x));
    if i == r.len() - 1 {
        assert(u.drop_last() =~= r.drop_last());
    } else {
        lemma_open_count_fill(r.drop_last(), i, x);
        assert(u.drop_last() =~= r.drop_last().update(i, Some(x)));
    }
}

proof fn lemma_open_count_zero(r: Seq<Option<usize>>)
    requires
        open_count(r) == 0,
    ensures
        forall|i: int| 0 <= i < r.len() ==> r[i] is Some,
    decreases r.len(),
{
    if r.len() > 0 {
        lemma_open_count_zero(r.drop_last());
        assert forall|i: int| 0 <= i < r.len() implies r[i] is Some by {
            if i < r.len() - 1 {
                assert(r[i] == r.drop_last()[i]);
            }
        }
    }
}

proof fn lemma_open_count_all_open(n: nat)
    ensures
        open_count(Seq::new(n, |i: int| None::<usize>)) == n,
    decreases n,
{
    if n > 0 {
        lemma_open_count_all_open((n - 1) as nat);
        assert(Seq::new(n, |i: int| None::<usize>).drop_last() =~= Seq::new((n - 1) as nat, |i: int| None::<usize>));
    }
}

/// The first slot that is still open and whose target is `name`.
fn first_open_match(results: &Vec<Option<usize>>, targets: &[&str], name: &str) -> (r: Option<usize>)
    requires
        results@.len() == targets@.len(),
    ensures
        match r {
            Some(i) => is_first_open_match(results@, target_views(targets@), name@, i as int),
            None => !exists|i: int| #[trigger] is_first_open_match(results@, target_views(targets@), name@, i),
        },
{
    let ghost tv = target_views(targets@);
    let mut i: usize = 0;
    while i < targets.len()
        invariant
            results@.len() == targets@.len(),
            tv == target_views(targets@),
            0 <= i <= targets@.len(),
            forall|j: int| 0 <= j < i ==> !(results@[j] is None && tv[j] == name@),
        decreases targets@.len() - i,
    {
        if results[i].is_none() && str_equal(name, targets[i]) {
            return Some(i);
        }
        i = i + 1;
    }
    None
}

/// The name of each visited object was asked about, up to the point where
/// every slot was filled (after that no name is resolved).
pub open spec fn names_answered<N: Fn(usize, usize) -> Option<String>>(
    resolve: N,
    module_base: usize,
    targets: Seq<Seq<char>>,
    objs: Seq<usize>,
) -> bool {
    forall|k: int|
        0 <= k < objs.len() && open_count(#[trigger] claims_after(resolve, module_base, targets, objs.take(k)))
            > 0 ==> name_answered(resolve, module_base, objs[k].wrapping_add(UOBJECT_NAME_OFFSET))
}

/// Resolves several class pointers by name in a single walk over `GObjects`.
/// Returns, in the order of `target_names`, the object that filled each
/// name's slot (see `claim`), and the walk's statistics.
pub fn find_classes_by_names<P: Fn(usize) -> usize, I: Fn(usize) -> Option<i32>, N: Fn(usize, usize) -> Option<String>>(
    module_base: usize,
    gobjects_offset: usize,
    target_names: &[&str],
    read_ptr: &P,
    read_i32: &I,
    resolve: &N,
) -> (res: (Vec<Option<usize>>, GObjectsStats))
    requires
        is_reader(*read_ptr),
        is_reader(*read_i32),
        is_name_resolver(*resolve),
    ensures
        res.1 == walk_gobjects_spec(module_base, gobjects_offset, *read_ptr, *read_i32).0,
        res.0@ == claims_after(
            *resolve,
            module_base,
            target_views(target_names@),
            walk_gobjects_spec(module_base, gobjects_offset, *read_ptr, *read_i32).1,
        ),
        walk_answered(module_base, gobjects_offset, *read_ptr, *read_i32),
        names_answered(
            *resolve,
            module_base,
            target_views(target_names@),
            walk_gobjects_spec(module_base, gobjects_offset, *read_ptr, *read_i32).1,
        ),
{
    let ghost tv = target_views(target_names@);
    let n = target_names.len();
    let mut results: Vec<Option<usize>> = Vec::new();
    let mut j: usize = 0;
    while j < n
        invariant
            n == target_names@.len(),
            0 <= j <= n,
            results@ == Seq::new(j as nat, |i: int| None::<usize>),
        decreases n - j,
    {
        results.push(None);
        proof {
            assert(results@ =~= Seq::new((j + 1) as nat, |i: int| None::<usize>));
        }
        j = j + 1;
    }
    proof {
        lemma_open_count_all_open(n as nat);
    }
    let mut remaining = n;
    let (stats, objs) = walk_gobjects(module_base, gobjects_offset, read_ptr, read_i32);
    assert(objs@.take(0) =~= Seq::<usize>::empty());
    let mut k: usize = 0;
    while k < objs.len()
        invariant
            is_name_resolver(*resolve),
            tv == target_views(target_names@),
            n == target_names@.len(),
            0 <= k <= objs@.len(),
            results@.len() == n,
            remaining == open_count(results@),
            results@ == claims_after(*resolve, module_base, tv, objs@.take(k as int)),
            forall|j: int|
                0 <= j < k && open_count(#[trigger] claims_after(*resolve, module_base, tv, objs@.take(j))) > 0
                    ==> name_answered(*resolve, module_base, objs@[j].wrapping_add(UOBJECT_NAME_OFFSET)),
        decreases objs@.len() - k,
    {
        let obj = objs[k];
        let ghost prev = results@;
        assert(objs@.take(k + 1).drop_last() =~= objs@.take(k as int));
        assert(objs@.take(k + 1).last() == obj);
        if remaining == 0 {
            proof {
                lemma_open_count_zero(prev);
            }
        } else {
            let name_opt = resolve_name(resolve, module_base, obj.wrapping_add(UOBJECT_NAME_OFFSET));
            match name_opt {
                Some(name) => {
                    match first_open_match(&results, target_names, name.as_str()) {
                        Some(i) => {
                            proof {
                                lemma_open_count_fill(prev, i as int, obj);
                            }
                            results.set(i, Some(obj));
                            remaining = remaining - 1;
                        },
                        None => {},
                    }
                },
                None => {},
            }
        }
        k = k + 1;
    }
    assert(objs@.take(objs@.len() as int) =~= objs@);
    (results, stats)
}

/// A slot filled by the walk holds an object that the walk visited and whose
/// name is the slot's target.
pub open spec fn slot_sound<N: Fn(usize, usize) -> Option<String>>(
    resolve: N,
    module_base: usize,
    targets: Seq<Seq<char>>,
    objs: Seq<usize>,
    slot: Option<usize>,
    i: int,
) -> bool {
    match slot {
        Some(o) => objs.contains(o) && match name_at(resolve, module_base, o.wrapping_add(UOBJECT_NAME_OFFSET)) {
            Some(n) => n@ == targets[i],
            None => false,
        },
        None => true,
    }
}

/// Every slot that `find_classes_by_names` fills holds an object the walk
/// visited, and that object's name is the slot's target name.
pub proof fn lemma_claims_sound<N: Fn(usize, usize) -> Option<String>>(
    resolve: N,
    module_base: usize,
    targets: Seq<Seq<char>>,
    objs: Seq<usize>,
)
    ensures
        claims_after(resolve, module_base, targets, objs).len() == targets.len(),
        forall|i: int|
            0 <= i < targets.len() ==> slot_sound(
                resolve,
                module_base,
                targets,
                objs,
                #[trigger] claims_after(resolve, module_base, targets, objs)[i],
                i,
            ),
    decreases objs.len(),
{
    lemma_claims_len(resolve, module_base, targets, objs);
    if objs.len() > 0 {
        let prev_objs = objs.drop_last();
        let o = objs.last();
        lemma_claims_sound(resolve, module_base, targets, prev_objs);
        let prev = claims_after(resolve, module_base, targets, prev_objs);
        let cur = claims_after(resolve, module_base, targets, objs);
        assert forall|i: int| 0 <= i < targets.len() implies slot_sound(
            resolve,
            module_base,
            targets,
            objs,
            #[trigger] claims_after(resolve, module_base, targets, objs)[i],
            i,
        ) by {
            assert(slot_sound(resolve, module_base, targets, prev_objs, prev[i], i));
            match prev[i] {
                Some(p) => {
                    let k = choose|k: int| 0 <= k < prev_objs.len() && prev_objs[k] == p;
                    assert(objs[k] == p);
                },
                None => {},
            }
            match name_at(resolve, module_base, o.wrapping_add(UOBJECT_NAME_OFFSET)) {
                Some(n) => {
                    if exists|j: int| is_first_open_match(prev, targets, n@, j) {
                        let j = choose|j: int| is_first_open_match(prev, targets, n@, j);
                        if i == j {
                            assert(objs[objs.len() - 1] == o);
                        }
                    }
                },
                None => {},
            }
        }
    } else {
        assert forall|i: int| 0 <= i < targets.len() implies slot_sound(
            resolve,
            module_base,
            targets,
            objs,
            #[trigger] claims_after(resolve, module_base, targets, objs)[i],
            i,
        ) by {}
    }
}

/// The statistics of a walk match what it visited: the visit count is the
/// number of objects visited, at most the element count, and every visited
/// object pointer is nonzero.
pub proof fn lemma_walk_counts<P: Fn(usize) -> usize, I: Fn(usize) -> Option<i32>>(
    module_base: usize,
    gobjects_offset: usize,
    read_ptr: P,
    read_i32: I,
)
    ensures
        ({
            let (stats, objs) = walk_gobjects_spec(module_base, gobjects_offset, read_ptr, read_i32);
            &&& stats.visited == objs.len()
            &&& objs.len() > 0 ==> objs.len() <= stats.num_elements
            &&& forall|i: int| 0 <= i < objs.len() ==> #[trigger] objs[i] != 0
        }),
{
    let gobjects = module_base.wrapping_add(gobjects_offset);
    let chunks = read_at(read_ptr, gobjects.wrapping_add(OBJ_OBJECTS_OFFSET));
    let num = unwrap_i32(read_at(read_i32, gobjects.wrapping_add(NUM_ELEMENTS_OFFSET)));
    if module_base != 0 && chunks != 0 && 0 < num <= MAX_OBJECTS_SANITY_CAP {
        let s = Seq::new(num as nat, |i: int| object_slot(read_ptr, chunks, i));
        let pred = |o: usize| o != 0;
        s.lemma_filter_len(pred);
        assert forall|i: int| 0 <= i < s.filter(pred).len() implies #[trigger] s.filter(pred)[i] != 0 by {
            s.lemma_filter_pred(pred, i);
        }
    }
}

/// Resolves one class pointer by name: the object that fills the single slot
/// of a walk for `[target_name]`.
pub fn find_class_by_name<P: Fn(usize) -> usize, I: Fn(usize) -> Option<i32>, N: Fn(usize, usize) -> Option<String>>(
    module_base: usize,
    gobjects_offset: usize,
    target_name: &str,
    read_ptr: &P,
    read_i32: &I,
    resolve: &N,
) -> (res: Option<usize>)
    requires
        is_reader(*read_ptr),
        is_reader(*read_i32),
        is_name_resolver(*resolve),
    ensures
        res == claims_after(
            *resolve,
            module_base,
            seq![target_name@],
            walk_gobjects_spec(module_base, gobjects_offset, *read_ptr, *read_i32).1,
        )[0],
{
    let names = vec![target_name];
    let (results, _) = find_classes_by_names(module_base, gobjects_offset, names.as_slice(), read_ptr, read_i32, resolve);
    assert(target_views(names@) =~= seq![target_name@]);
    proof {
        lemma_claims_len(*resolve, module_base, seq![target_name@], walk_gobjects_spec(module_base, gobjects_offset, *read_ptr, *read_i32).1);
    }
    results[0]
}

proof fn lemma_claims_len<N: Fn(usize, usize) -> Option<String>>(
    resolve: N,
    module_base: usize,
    targets: Seq<Seq<char>>,
    objs: Seq<usize>,
)
    ensures
        claims_after(resolve, module_base, targets, objs).len() == targets.len(),
    decreases objs.len(),
{
    if objs.len() > 0 {
        lemma_claims_len(resolve, module_base, targets, objs.drop_last());
    }
}


/// The class `n` steps up the SuperStruct chain from `class_ptr`, in the
/// memory `mem`.
pub open spec fn chain_in(mem: spec_fn(usize) -> usize, class_ptr: usize, n: nat) -> usize
    decreases n,
{
    if n == 0 {
        class_ptr
    } else {
        mem(chain_in(mem, class_ptr, (n - 1) as nat).wrapping_add(USTRUCT_SUPER_OFFSET))
    }
}

/// The class `n` steps up the SuperStruct chain from `class_ptr`, in the
/// memory behind `read_ptr`.
pub open spec fn super_chain<P: Fn(usize) -> usize>(read_ptr: P, class_ptr: usize, n: nat) -> usize {
    chain_in(ptr_memory(read_ptr), class_ptr, n)
}

/// Every SuperStruct link that a walk from `class_ptr` follows was asked
/// about; the walk stops at a null class, at a class where `stop` holds, or
/// after `MAX_SUPER_DEPTH` steps.
pub open spec fn chain_answered<P: Fn(usize) -> usize>(read_ptr: P, class_ptr: usize, stop: spec_fn(usize) -> bool) -> bool {
    forall|j: nat|
        #![trigger super_chain(read_ptr, class_ptr, j)]
        j < MAX_SUPER_DEPTH && (forall|i: nat|
            i <= j ==> #[trigger] super_chain(read_ptr, class_ptr, i) != 0 && !stop(super_chain(read_ptr, class_ptr, i)))
            ==> answered(read_ptr, super_chain(read_ptr, class_ptr, j).wrapping_add(USTRUCT_SUPER_OFFSET))
}

/// `base` is met within `MAX_SUPER_DEPTH` steps up the chain from
/// `class_ptr`, before any null link.
pub open spec fn reaches_base<P: Fn(usize) -> usize>(read_ptr: P, class_ptr: usize, base: usize) -> bool {
    exists|k: nat|
        k <= MAX_SUPER_DEPTH && #[trigger] super_chain(read_ptr, class_ptr, k) == base && forall|j: nat|
            j < k ==> #[trigger] super_chain(read_ptr, class_ptr, j) != 0
}

/// Whether `class_ptr` derives from `base` (or is `base`); false when either
/// is null.
pub open spec fn subclass_spec<P: Fn(usize) -> usize>(read_ptr: P, class_ptr: usize, base: usize) -> bool {
    class_ptr != 0 && base != 0 && reaches_base(read_ptr, class_ptr, base)
}

/// A cache of subclass answers, keyed by (class, base).
pub struct SubclassCache {
    map: std::collections::HashMap<usize, std::collections::HashMap<usize, bool>>,
}

impl View for SubclassCache {
    type V = Map<(usize, usize), bool>;

    closed spec fn view(&self) -> Map<(usize, usize), bool> {
        Map::new(
            |k: (usize, usize)| self.map@.contains_key(k.0) && self.map@[k.0]@.contains_key(k.1),
            |k: (usize, usize)| self.map@[k.0]@[k.1],
        )
    }
}

impl SubclassCache {
    /// An empty cache.
    pub fn new() -> (c: Self)
        ensures
            c@ == Map::<(usize, usize), bool>::empty(),
    {
        let c = SubclassCache { map: std::collections::HashMap::new() };
        assert(c@ =~= Map::<(usize, usize), bool>::empty());
        c
    }

    /// The cached answer for (class, base), if any.
    pub fn get(&self, class_ptr: usize, base: usize) -> (r: Option<bool>)
        ensures
            r == (if self@.contains_key((class_ptr, base)) {
                Some(self@[(class_ptr, base)])
            } else {
                None
            }),
    {
        match self.map.get(&class_ptr) {
            Some(inner) => match inner.get(&base) {
                Some(v) => Some(*v),
                None => None,
            },
            None => None,
        }
    }

    /// Records the answer for (class, base).
    pub fn insert(&mut self, class_ptr: usize, base: usize, v: bool)
        ensures
            final(self)@ == old(self)@.insert((class_ptr, base), v),
    {
        let inner_opt = self.map.remove(&class_ptr);
        let mut inner = match inner_opt {
            Some(m) => m,
            None => std::collections::HashMap::new(),
        };
        inner.insert(base, v);
        self.map.insert(class_ptr, inner);
        assert(self@ =~= old(self)@.insert((class_ptr, base), v));
    }
}

/// What one call of `is_subclass_of` does, from cache `before` to cache
/// `after`, answering `r`: null pointers answer false; a cached answer is
/// returned; otherwise the chain is walked and its answer cached.
pub open spec fn subclass_post<P: Fn(usize) -> usize>(
    read_ptr: P,
    before: Map<(usize, usize), bool>,
    class_ptr: usize,
    base: usize,
    r: bool,
    after: Map<(usize, usize), bool>,
) -> bool {
    if class_ptr == 0 || base == 0 {
        !r && after == before
    } else if before.contains_key((class_ptr, base)) {
        r == before[(class_ptr, base)] && after == before
    } else {
        r == reaches_base(read_ptr, class_ptr, base) && after == before.insert((class_ptr, base), r)
    }
}

/// Asking `is_subclass_of` twice about the same pair gives the same answer,
/// and the second call leaves the cache as it was.
pub proof fn lemma_subclass_twice<P: Fn(usize) -> usize>(
    read_ptr: P,
    c0: Map<(usize, usize), bool>,
    class_ptr: usize,
    base: usize,
    r1: bool,
    c1: Map<(usize, usize), bool>,
    r2: bool,
    c2: Map<(usize, usize), bool>,
)
    requires
        subclass_post(read_ptr, c0, class_ptr, base, r1, c1),
        subclass_post(read_ptr, c1, class_ptr, base, r2, c2),
    ensures
        r2 == r1,
        c2 == c1,
{
}

/// Every answer in the cache is the one that the memory behind `read_ptr`
/// gives.
pub open spec fn subclass_cache_agrees<P: Fn(usize) -> usize>(cache: Map<(usize, usize), bool>, read_ptr: P) -> bool {
    forall|k: (usize, usize)| #[trigger] cache.contains_key(k) ==> cache[k] == subclass_spec(read_ptr, k.0, k.1)
}

/// Whether `class_ptr` is `base` or derives from it, following at most
/// `MAX_SUPER_DEPTH` SuperStruct links. A cached answer is returned as it
/// is; otherwise the chain is walked and the answer cached.
pub fn is_subclass_of<P: Fn(usize) -> usize>(
    class_ptr: usize,
    base: usize,
    cache: &mut SubclassCache,
    read_ptr: &P,
) -> (r: bool)
    requires
        is_reader(*read_ptr),
    ensures
        subclass_post(*read_ptr, old(cache)@, class_ptr, base, r, final(cache)@),
        class_ptr != 0 && base != 0 && !old(cache)@.contains_key((class_ptr, base)) ==> chain_answered(
            *read_ptr,
            class_ptr,
            |c: usize| c == base,
        ),
        subclass_cache_agrees(old(cache)@, *read_ptr) ==> r == subclass_spec(*read_ptr, class_ptr, base)
            && subclass_cache_agrees(final(cache)@, *read_ptr),
{
    if class_ptr == 0 || base == 0 {
        return false;
    }
    match cache.get(class_ptr, base) {
        Some(v) => {
            return v;
        },
        None => {},
    }
    let mut cur = class_ptr;
    let mut depth: u32 = 0;
    let result;
    loop
        invariant
            is_reader(*read_ptr),
            base != 0,
            depth <= MAX_SUPER_DEPTH,
            cur == super_chain(*read_ptr, class_ptr, depth as nat),
            forall|j: nat| j < depth ==> #[trigger] super_chain(*read_ptr, class_ptr, j) != 0
                && super_chain(*read_ptr, class_ptr, j) != base,
            forall|j: nat| j < depth ==> answered(*read_ptr, #[trigger] super_chain(*read_ptr, class_ptr, j).wrapping_add(USTRUCT_SUPER_OFFSET)),
        ensures
            result == reaches_base(*read_ptr, class_ptr, base),
            chain_answered(*read_ptr, class_ptr, |c: usize| c == base),
        decreases MAX_SUPER_DEPTH - depth,
    {
        if cur == base || cur == 0 || depth >= MAX_SUPER_DEPTH {
            proof {
                let stop = |c: usize| c == base;
                assert forall|j: nat|
                    #![trigger super_chain(*read_ptr, class_ptr, j)]
                    j < MAX_SUPER_DEPTH && (forall|i: nat|
                        i <= j ==> #[trigger] super_chain(*read_ptr, class_ptr, i) != 0 && !stop(super_chain(*read_ptr, class_ptr, i)))
                        implies answered(*read_ptr, super_chain(*read_ptr, class_ptr, j).wrapping_add(USTRUCT_SUPER_OFFSET)) by {
                    if j >= depth {
                        assert(super_chain(*read_ptr, class_ptr, depth as nat) != 0);
                    }
                }
            }
        }
        if cur == base {
            assert(super_chain(*read_ptr, class_ptr, depth as nat) == base);
            result = true;
            break;
        }
        if cur == 0 || depth >= MAX_SUPER_DEPTH {
            proof {
                if reaches_base(*read_ptr, class_ptr, base) {
                    let k = choose|k: nat|
                        k <= MAX_SUPER_DEPTH && #[trigger] super_chain(*read_ptr, class_ptr, k) == base
                            && forall|j: nat| j < k ==> #[trigger] super_chain(*read_ptr, class_ptr, j) != 0;
                    if k < depth {
                        assert(super_chain(*read_ptr, class_ptr, k) != base);
                    } else if k == depth {
                    } else {
                        assert(super_chain(*read_ptr, class_ptr, depth as nat) != 0);
                    }
                }
            }
            result = false;
            break;
        }
        cur = read_value(read_ptr, cur.wrapping_add(USTRUCT_SUPER_OFFSET));
        depth = depth + 1;
    }
    cache.insert(class_ptr, base, result);
    result
}


/// Step `k` of the chain from `class_ptr` is the first step that meets a
/// root, within `MAX_SUPER_DEPTH` steps and before any null link.
pub open spec fn is_first_root_hit<P: Fn(usize) -> usize>(
    read_ptr: P,
    roots: Seq<usize>,
    class_ptr: usize,
    k: nat,
) -> bool {
    &&& k < MAX_SUPER_DEPTH
    &&& super_chain(read_ptr, class_ptr, k) != 0
    &&& roots.contains(super_chain(read_ptr, class_ptr, k))
    &&& forall|j: nat|
        j < k ==> #[trigger] super_chain(read_ptr, class_ptr, j) != 0 && !roots.contains(
            super_chain(read_ptr, class_ptr, j),
        )
}

/// The first root met while walking the SuperStruct chain from `class_ptr`;
/// `None` for a null class, when there are no roots, or when no root is met.
pub open spec fn classify_spec<P: Fn(usize) -> usize>(read_ptr: P, roots: Seq<usize>, class_ptr: usize) -> Option<usize> {
    if class_ptr == 0 || roots.len() == 0 {
        None
    } else if exists|k: nat| #[trigger] is_first_root_hit(read_ptr, roots, class_ptr, k) {
        let k = choose|k: nat| #[trigger] is_first_root_hit(read_ptr, roots, class_ptr, k);
        Some(super_chain(read_ptr, class_ptr, k))
    } else {
        None
    }
}

proof fn lemma_first_root_hit_unique<P: Fn(usize) -> usize>(
    read_ptr: P,
    roots: Seq<usize>,
    class_ptr: usize,
    k1: nat,
    k2: nat,
)
    requires
        is_first_root_hit(read_ptr, roots, class_ptr, k1),
        is_first_root_hit(read_ptr, roots, class_ptr, k2),
    ensures
        k1 == k2,
{
    if k1 < k2 {
        assert(super_chain(read_ptr, class_ptr, k1) != 0);
    } else if k2 < k1 {
        assert(super_chain(read_ptr, class_ptr, k2) != 0);
    }
}

/// Only which classes are roots matters, not their order or repetition: a
/// class is classified under the first root met up its own chain, so a
/// more-derived root is found before any of its bases.
pub proof fn lemma_classify_ignores_root_order<P: Fn(usize) -> usize>(
    read_ptr: P,
    roots1: Seq<usize>,
    roots2: Seq<usize>,
    class_ptr: usize,
)
    requires
        roots1.len() != 0,
        roots2.len() != 0,
        forall|x: usize| roots1.contains(x) <==> roots2.contains(x),
    ensures
        classify_spec(read_ptr, roots1, class_ptr) == classify_spec(read_ptr, roots2, class_ptr),
{
    assert forall|k: nat| #[trigger] is_first_root_hit(read_ptr, roots1, class_ptr, k) <==> is_first_root_hit(
        read_ptr,
        roots2,
        class_ptr,
        k,
    ) by {}
    if exists|k: nat| #[trigger] is_first_root_hit(read_ptr, roots1, class_ptr, k) {
        let k1 = choose|k: nat| #[trigger] is_first_root_hit(read_ptr, roots1, class_ptr, k);
        let k2 = choose|k: nat| #[trigger] is_first_root_hit(read_ptr, roots2, class_ptr, k);
        assert(is_first_root_hit(read_ptr, roots2, class_ptr, k1));
        lemma_first_root_hit_unique(read_ptr, roots2, class_ptr, k1, k2);
        assert(super_chain(read_ptr, class_ptr, 0) == class_ptr);
        assert(class_ptr != 0);
        assert(classify_spec(read_ptr, roots1, class_ptr) == Some(super_chain(read_ptr, class_ptr, k1)));
        assert(classify_spec(read_ptr, roots2, class_ptr) == Some(super_chain(read_ptr, class_ptr, k2)));
    } else {
        assert(!exists|k: nat| #[trigger] is_first_root_hit(read_ptr, roots2, class_ptr, k)) by {
            if exists|k: nat| #[trigger] is_first_root_hit(read_ptr, roots2, class_ptr, k) {
                let k2 = choose|k: nat| #[trigger] is_first_root_hit(read_ptr, roots2, class_ptr, k);
                assert(is_first_root_hit(read_ptr, roots1, class_ptr, k2));
            }
        }
    }
}

/// When some step of the chain meets a root, before any null link and
/// within `MAX_SUPER_DEPTH` steps, there is a first such step.
proof fn lemma_first_root_hit_exists<P: Fn(usize) -> usize>(
    read_ptr: P,
    roots: Seq<usize>,
    class_ptr: usize,
    k: nat,
)
    requires
        k < MAX_SUPER_DEPTH,
        super_chain(read_ptr, class_ptr, k) != 0,
        roots.contains(super_chain(read_ptr, class_ptr, k)),
        forall|j: nat| j < k ==> #[trigger] super_chain(read_ptr, class_ptr, j) != 0,
    ensures
        exists|m: nat| #[trigger] is_first_root_hit(read_ptr, roots, class_ptr, m),
    decreases k,
{
    if exists|j: nat| j < k && roots.contains(#[trigger] super_chain(read_ptr, class_ptr, j)) {
        let j = choose|j: nat| j < k && roots.contains(#[trigger] super_chain(read_ptr, class_ptr, j));
        lemma_first_root_hit_exists(read_ptr, roots, class_ptr, j);
    } else {
        assert(is_first_root_hit(read_ptr, roots, class_ptr, k));
    }
}

/// Adding roots never un-matches a class: when every nonzero root of
/// `roots1` is also in `roots2`, a class that a filter built from `roots1`
/// classifies is classified by one built from `roots2` too.
pub proof fn lemma_more_roots_keep_matches<P: Fn(usize) -> usize>(
    read_ptr: P,
    roots1: Seq<usize>,
    roots2: Seq<usize>,
    class_ptr: usize,
)
    requires
        forall|x: usize| x != 0 && roots1.contains(x) ==> roots2.contains(x),
    ensures
        classify_spec(read_ptr, roots1.filter(|p: usize| p != 0), class_ptr) is Some ==> classify_spec(
            read_ptr,
            roots2.filter(|p: usize| p != 0),
            class_ptr,
        ) is Some,
{
    let pred = |p: usize| p != 0;
    let f1 = roots1.filter(pred);
    let f2 = roots2.filter(pred);
    if classify_spec(read_ptr, f1, class_ptr) is Some {
        let k = choose|k: nat| #[trigger] is_first_root_hit(read_ptr, f1, class_ptr, k);
        let c = super_chain(read_ptr, class_ptr, k);
        assert(f1.contains(c));
        roots1.lemma_filter_contains_rev(pred, c);
        assert(roots2.contains(c));
        let i = choose|i: int| 0 <= i < roots2.len() && roots2[i] == c;
        roots2.lemma_filter_contains(pred, i);
        assert(f2.contains(c));
        assert(f2.len() != 0);
        lemma_first_root_hit_exists(read_ptr, f2, class_ptr, k);
    }
}

/// What one call of `classify` does, from cache `before` to cache `after`,
/// answering `r`: a null class or an empty root list answers `None`; a
/// cached answer is returned; otherwise the chain is walked (see
/// `classify_spec`) and its answer cached.
pub open spec fn classify_post<P: Fn(usize) -> usize>(
    read_ptr: P,
    roots: Seq<usize>,
    before: Map<usize, Option<usize>>,
    class_ptr: usize,
    r: Option<usize>,
    after: Map<usize, Option<usize>>,
) -> bool {
    if class_ptr == 0 || roots.len() == 0 {
        r is None && after == before
    } else if before.contains_key(class_ptr) {
        r == before[class_ptr] && after == before
    } else {
        r == classify_spec(read_ptr, roots, class_ptr) && after == before.insert(class_ptr, r)
    }
}

/// Classifying the same class twice gives the same answer, and the second
/// call leaves the cache as it was.
pub proof fn lemma_classify_twice<P: Fn(usize) -> usize>(
    read_ptr: P,
    roots: Seq<usize>,
    c0: Map<usize, Option<usize>>,
    class_ptr: usize,
    r1: Option<usize>,
    c1: Map<usize, Option<usize>>,
    r2: Option<usize>,
    c2: Map<usize, Option<usize>>,
)
    requires
        classify_post(read_ptr, roots, c0, class_ptr, r1, c1),
        classify_post(read_ptr, roots, c1, class_ptr, r2, c2),
    ensures
        r2 == r1,
        c2 == c1,
{
}

/// Pointer-comparison inheritance filter. `roots` is a list of base class
/// pointers; `classify` returns the first root met while walking the class's
/// SuperStruct chain, so a more-derived root (e.g. `HumanPlayer`) is found
/// before its bases (e.g. `Human`) whatever the order of the list.
pub struct ClassFilter {
    pub roots: Vec<usize>,
    pub(crate) cache: std::collections::HashMap<usize, Option<usize>>,
}

/// Every cached classification is the one that the memory behind `read_ptr`
/// gives for `roots`.
pub open spec fn class_cache_agrees<P: Fn(usize) -> usize>(
    cached: Map<usize, Option<usize>>,
    roots: Seq<usize>,
    read_ptr: P,
) -> bool {
    forall|c: usize| #[trigger] cached.contains_key(c) ==> cached[c] == classify_spec(read_ptr, roots, c)
}

/// Whether `p` is one of `roots`.
fn is_root(roots: &Vec<usize>, p: usize) -> (r: bool)
    ensures
        r == roots@.contains(p),
{
    let mut i: usize = 0;
    while i < roots.len()
        invariant
            0 <= i <= roots@.len(),
            forall|j: int| 0 <= j < i ==> roots@[j] != p,
        decreases roots@.len() - i,
    {
        if roots[i] == p {
            assert(roots@[i as int] == p);
            return true;
        }
        i = i + 1;
    }
    false
}

impl ClassFilter {
    /// The roots, in order.
    pub open(crate) spec fn root_list(self) -> Seq<usize> {
        self.roots@
    }

    /// The cached classifications, by class pointer.
    pub closed spec fn cached(self) -> Map<usize, Option<usize>> {
        self.cache@
    }

    /// A filter over the nonzero entries of `roots`, in their order, with an
    /// empty cache.
    pub fn new(roots: Vec<usize>) -> (f: Self)
        ensures
            f.root_list() == roots@.filter(|p: usize| p != 0),
            f.cached() == Map::<usize, Option<usize>>::empty(),
    {
        let mut kept: Vec<usize> = Vec::new();
        let mut i: usize = 0;
        while i < roots.len()
            invariant
                0 <= i <= roots@.len(),
                kept@ == roots@.subrange(0, i as int).filter(|p: usize| p != 0),
            decreases roots@.len() - i,
        {
            let p = roots[i];
            proof {
                assert(roots@.subrange(0, i + 1) =~= roots@.subrange(0, i as int).push(p));
                roots@.subrange(0, i as int).lemma_filter_push(p, |p: usize| p != 0);
            }
            if p != 0 {
                kept.push(p);
            }
            i = i + 1;
        }
        assert(roots@.subrange(0, roots@.len() as int) =~= roots@);
        let f = ClassFilter { roots: kept, cache: std::collections::HashMap::new() };
        assert(f.cached() =~= Map::<usize, Option<usize>>::empty());
        f
    }

    /// The first root met while walking `class_ptr`'s SuperStruct chain (see
    /// `classify_spec`). A cached answer is returned as it is; otherwise the
    /// chain is walked and the answer cached.
    pub fn classify<P: Fn(usize) -> usize>(&mut self, class_ptr: usize, read_ptr: &P) -> (r: Option<usize>)
        requires
            is_reader(*read_ptr),
        ensures
            final(self).root_list() == old(self).root_list(),
            classify_post(*read_ptr, old(self).root_list(), old(self).cached(), class_ptr, r, final(self).cached()),
            class_ptr != 0 && old(self).root_list().len() != 0 && !old(self).cached().contains_key(class_ptr)
                ==> chain_answered(*read_ptr, class_ptr, |c: usize| old(self).root_list().contains(c)),
            class_cache_agrees(old(self).cached(), old(self).root_list(), *read_ptr) ==> r == classify_spec(
                *read_ptr,
                old(self).root_list(),
                class_ptr,
            ) && class_cache_agrees(final(self).cached(), final(self).root_list(), *read_ptr),
    {
        if class_ptr == 0 || self.roots.len() == 0 {
            return None;
        }
        match self.cache.get(&class_ptr) {
            Some(v) => {
                return *v;
            },
            None => {},
        }
        let ghost roots = self.root_list();
        let mut cur = class_ptr;
        let mut depth: u32 = 0;
        let result;
        loop
            invariant
                is_reader(*read_ptr),
                self.root_list() == roots,
                roots.len() != 0,
                class_ptr != 0,
                depth <= MAX_SUPER_DEPTH,
                cur == super_chain(*read_ptr, class_ptr, depth as nat),
                forall|j: nat|
                    j < depth ==> #[trigger] super_chain(*read_ptr, class_ptr, j) != 0 && !roots.contains(
                        super_chain(*read_ptr, class_ptr, j),
                    ),
                forall|j: nat| j < depth ==> answered(*read_ptr, #[trigger] super_chain(*read_ptr, class_ptr, j).wrapping_add(USTRUCT_SUPER_OFFSET)),
            ensures
                result == classify_spec(*read_ptr, roots, class_ptr),
                chain_answered(*read_ptr, class_ptr, |c: usize| roots.contains(c)),
            decreases MAX_SUPER_DEPTH - depth,
        {
            let hit = cur != 0 && depth < MAX_SUPER_DEPTH && is_root(&self.roots, cur);
            if cur == 0 || depth >= MAX_SUPER_DEPTH || hit {
                proof {
                    let stop = |c: usize| roots.contains(c);
                    assert forall|j: nat|
                        #![trigger super_chain(*read_ptr, class_ptr, j)]
                        j < MAX_SUPER_DEPTH && (forall|i: nat|
                            i <= j ==> #[trigger] super_chain(*read_ptr, class_ptr, i) != 0 && !stop(super_chain(*read_ptr, class_ptr, i)))
                            implies answered(*read_ptr, super_chain(*read_ptr, class_ptr, j).wrapping_add(USTRUCT_SUPER_OFFSET)) by {
                        if j >= depth {
                            assert(super_chain(*read_ptr, class_ptr, depth as nat) != 0);
                        }
                    }
                }
            }
            if cur == 0 || depth >= MAX_SUPER_DEPTH {
                proof {
                    if exists|k: nat| #[trigger] is_first_root_hit(*read_ptr, roots, class_ptr, k) {
                        let k = choose|k: nat| #[trigger] is_first_root_hit(*read_ptr, roots, class_ptr, k);
                        if k < depth {
                        } else if k == depth {
                        } else {
                            assert(super_chain(*read_ptr, class_ptr, depth as nat) != 0);
                        }
                    }
                }
                result = None;
                break;
            }
            if hit {
                proof {
                    assert(is_first_root_hit(*read_ptr, roots, class_ptr, depth as nat));
                    let k = choose|k: nat| #[trigger] is_first_root_hit(*read_ptr, roots, class_ptr, k);
                    lemma_first_root_hit_unique(*read_ptr, roots, class_ptr, k, depth as nat);
                }
                result = Some(cur);
                break;
            }
            cur = read_value(read_ptr, cur.wrapping_add(USTRUCT_SUPER_OFFSET));
            depth = depth + 1;
        }
        self.cache.insert(class_ptr, result);
        result
    }

    /// Whether `class_ptr` derives from any root: `classify(..).is_some()`,
    /// with the same effect on the cache.
    pub fn matches<P: Fn(usize) -> usize>(&mut self, class_ptr: usize, read_ptr: &P) -> (r: bool)
        requires
            is_reader(*read_ptr),
        ensures
            final(self).root_list() == old(self).root_list(),
            exists|c: Option<usize>|
                #[trigger] classify_post(*read_ptr, old(self).root_list(), old(self).cached(), class_ptr, c, final(self).cached())
                    && r == (c is Some),
            class_ptr != 0 && old(self).root_list().len() != 0 && !old(self).cached().contains_key(class_ptr)
                ==> chain_answered(*read_ptr, class_ptr, |c: usize| old(self).root_list().contains(c)),
            class_cache_agrees(old(self).cached(), old(self).root_list(), *read_ptr) ==> r == (classify_spec(*read_ptr, old(self).root_list(), class_ptr) is Some) && class_cache_agrees(final(self).cached(), final(self).root_list(), *read_ptr),
    {
        self.classify(class_ptr, read_ptr).is_some()
    }
}

} // verus!
