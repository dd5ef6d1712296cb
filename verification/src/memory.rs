//! Pointer chains through the game's UE4 object graph.
//!
//! Every read goes through a reader (see `crate::reader`); the pointer reader
//! gives zero where memory cannot be read.
use vstd::prelude::*;
use crate::reader::{read_value, resolve_name, is_reader, read_at, is_name_resolver, name_at, unwrap_i32, answered, name_answered};
use crate::text::{str_starts_with, is_prefix_of};

verus! {

pub const GWORLD_OFFSET: usize = 0x58BE190;

pub const PERSISTENT_LEVEL_OFFSET: usize = 0x30;
pub const ACTORS_ARRAY_OFFSET: usize = 0x98;

pub const ACTOR_ROOT_COMPONENT_OFFSET: usize = 0x130;
pub const COMPONENT_LOCATION_OFFSET: usize = 0x11C;

pub const GAME_INSTANCE_OFFSET: usize = 0x180;
pub const LOCAL_PLAYERS_OFFSET: usize = 0x38;
pub const PLAYER_CONTROLLER_OFFSET: usize = 0x30;
pub const CAMERA_MANAGER_OFFSET: usize = 0x2B8;
pub const CAMERA_CACHE_OFFSET: usize = 0x290;
pub const CAMERA_CACHE_PRIVATE_OFFSET: usize = 0x1AE0;
pub const VIEW_TARGET_OFFSET: usize = 0xE90;
pub const CAMERA_CACHE_POV_OFFSET: usize = 0x10;
pub const UOBJECT_CLASS_OFFSET: usize = 0x10;
pub const UOBJECT_NAME_OFFSET: usize = 0x18;
pub const CONTROLLER_PAWN_OFFSET: usize = 0x250;
pub const APPEND_STRING_OFFSET: usize = 0x01A6C410;

/// `AGLBaseCharacter::MyHP` (a float) on mechs.
pub const MECH_HP_OFFSET: usize = 0x564;
/// `AGLBaseCharacter::bIsDead` on mechs.
pub const MECH_IS_DEAD_OFFSET: usize = 0x56D;
/// `AHuman::MyHP` (an `i32`) on humans.
pub const HUMAN_HP_OFFSET: usize = 0xDEC;
/// `ACharacter::Mesh`.
pub const CHARACTER_MESH_OFFSET: usize = 0x280;
/// The byte of `USkinnedMeshComponent` that holds `bRecentlyRendered`.
pub const SKINNED_MESH_RENDERED_BYTE: usize = 0x607;
/// The bit of that byte that is `bRecentlyRendered`.
pub const RECENTLY_RENDERED_BIT: u8 = 0x40;

pub const CLASS_GROUP_COUNT: usize = 64;
pub const SELECTED_CLASS_COUNT: usize = 8;

/// Reads the `GWorld` pointer: zero when the module base is zero, else the
/// pointer at `base + GWORLD_OFFSET`.
pub fn get_gworld<P: Fn(usize) -> usize>(base: usize, read_ptr: &P) -> (world: usize)
    requires
        is_reader(*read_ptr),
    ensures
        world == (if base == 0 { 0 } else { read_at(*read_ptr, base.wrapping_add(GWORLD_OFFSET)) }),
        base != 0 ==> answered(*read_ptr, base.wrapping_add(GWORLD_OFFSET)),
{
    if base == 0 {
        return 0;
    }
    read_value(read_ptr, base.wrapping_add(GWORLD_OFFSET))
}


/// Most actors a level's actor array is taken to hold.
pub const MAX_ACTORS: i32 = 50_000;

/// A level's actor array: the address of its pointer data and its count.
#[derive(Clone, Copy)]
pub struct ActorArray {
    pub data: usize,
    pub count: i32,
}

/// The empty actor array.
pub open spec fn no_actors() -> ActorArray {
    ActorArray { data: 0, count: 0 }
}

/// The persistent level of `world` and its actor array. The level is zero
/// when the world or its level pointer is; the array is empty unless its data
/// pointer is nonzero and its count lies in `1..=MAX_ACTORS`.
pub open spec fn get_actors_spec<P: Fn(usize) -> usize, I: Fn(usize) -> Option<i32>>(
    world: usize,
    read_ptr: P,
    read_i32: I,
) -> (usize, ActorArray) {
    let level = read_at(read_ptr, world.wrapping_add(PERSISTENT_LEVEL_OFFSET));
    let data = read_at(read_ptr, level.wrapping_add(ACTORS_ARRAY_OFFSET));
    let count = unwrap_i32(read_at(read_i32, level.wrapping_add(ACTORS_ARRAY_OFFSET).wrapping_add(8)));
    if world == 0 || level == 0 {
        (0, no_actors())
    } else if data == 0 || count <= 0 || count > MAX_ACTORS {
        (level, no_actors())
    } else {
        (level, ActorArray { data, count })
    }
}

/// Every address `get_actors_spec` depends on was asked about.
pub open spec fn get_actors_answered<P: Fn(usize) -> usize, I: Fn(usize) -> Option<i32>>(
    world: usize,
    read_ptr: P,
    read_i32: I,
) -> bool {
    let level = read_at(read_ptr, world.wrapping_add(PERSISTENT_LEVEL_OFFSET));
    &&& world != 0 ==> answered(read_ptr, world.wrapping_add(PERSISTENT_LEVEL_OFFSET))
    &&& world != 0 && level != 0 ==> answered(read_ptr, level.wrapping_add(ACTORS_ARRAY_OFFSET))
        && answered(read_i32, level.wrapping_add(ACTORS_ARRAY_OFFSET).wrapping_add(8))
}

/// Reads the persistent level of `world` and its actor array (see
/// `get_actors_spec`).
pub fn get_actors<P: Fn(usize) -> usize, I: Fn(usize) -> Option<i32>>(
    world: usize,
    read_ptr: &P,
    read_i32: &I,
) -> (res: (usize, ActorArray))
    requires
        is_reader(*read_ptr),
        is_reader(*read_i32),
    ensures
        res == get_actors_spec(world, *read_ptr, *read_i32),
        get_actors_answered(world, *read_ptr, *read_i32),
{
    if world == 0 {
        return (0, ActorArray { data: 0, count: 0 });
    }
    let level = read_value(read_ptr, world.wrapping_add(PERSISTENT_LEVEL_OFFSET));
    if level == 0 {
        return (0, ActorArray { data: 0, count: 0 });
    }
    let data = read_value(read_ptr, level.wrapping_add(ACTORS_ARRAY_OFFSET));
    let count = match read_value(read_i32, level.wrapping_add(ACTORS_ARRAY_OFFSET).wrapping_add(8)) {
        Some(c) => c,
        None => 0,
    };
    if data == 0 || count <= 0 || count > MAX_ACTORS {
        return (level, ActorArray { data: 0, count: 0 });
    }
    (level, ActorArray { data, count })
}

/// `n * 8`, saturating at `usize::MAX`.
pub open spec fn saturating_times_8(n: usize) -> usize {
    if n * 8 > usize::MAX {
        usize::MAX
    } else {
        (n * 8) as usize
    }
}

/// The actor array read from a world is either empty, or has a nonzero
/// data pointer and a count in `1..=MAX_ACTORS`; a nonempty array comes with
/// a nonzero level.
pub proof fn lemma_actor_array_plausible<P: Fn(usize) -> usize, I: Fn(usize) -> Option<i32>>(
    world: usize,
    read_ptr: P,
    read_i32: I,
)
    ensures
        ({
            let (level, a) = get_actors_spec(world, read_ptr, read_i32);
            ||| a.data == 0 && a.count == 0
            ||| a.data != 0 && 1 <= a.count <= MAX_ACTORS && level != 0
        }),
{
}

/// The actor pointers of `array`: empty for an empty array or when its
/// `count * 8` bytes (saturating) are not readable; else what the loader
/// gives for `count` pointers at `data`.
pub fn actor_slice<R: Fn(usize, usize) -> bool, L: Fn(usize, usize) -> Vec<usize>>(
    array: &ActorArray,
    readable: &R,
    load: &L,
) -> (actors: Vec<usize>)
    requires
        forall|a: usize, n: usize| call_requires(*readable, (a, n)),
        forall|a: usize, n: usize| call_requires(*load, (a, n)),
    ensures
        array.data == 0 || array.count <= 0 ==> actors@.len() == 0,
        array.data != 0 && array.count > 0 ==> {
            let bytes = saturating_times_8(array.count as usize);
            ||| call_ensures(*readable, (array.data, bytes), false) && actors@.len() == 0
            ||| call_ensures(*readable, (array.data, bytes), true) && call_ensures(
                *load,
                (array.data, array.count as usize),
                actors,
            )
        },
{
    if array.data == 0 || array.count <= 0 {
        return Vec::new();
    }
    let n = array.count as usize;
    let bytes = if n > usize::MAX / 8 {
        usize::MAX
    } else {
        n * 8
    };
    if !readable(array.data, bytes) {
        return Vec::new();
    }
    load(array.data, array.count as usize)
}

/// The class of an actor: zero for a null actor, else the pointer at
/// `actor + UOBJECT_CLASS_OFFSET`.
pub open spec fn actor_class_spec<P: Fn(usize) -> usize>(actor: usize, read_ptr: P) -> usize {
    if actor == 0 {
        0
    } else {
        read_at(read_ptr, actor.wrapping_add(UOBJECT_CLASS_OFFSET))
    }
}

/// Reads the class of an actor (see `actor_class_spec`).
pub fn get_actor_class<P: Fn(usize) -> usize>(actor: usize, read_ptr: &P) -> (class_ptr: usize)
    requires
        is_reader(*read_ptr),
    ensures
        class_ptr == actor_class_spec(actor, *read_ptr),
        actor != 0 ==> answered(*read_ptr, actor.wrapping_add(UOBJECT_CLASS_OFFSET)),
{
    if actor == 0 {
        return 0;
    }
    read_value(read_ptr, actor.wrapping_add(UOBJECT_CLASS_OFFSET))
}

/// Reads the class of the pawn a player controller possesses: zero for a
/// null controller.
pub fn get_player_pawn_class<P: Fn(usize) -> usize>(pc: usize, read_ptr: &P) -> (class_ptr: usize)
    requires
        is_reader(*read_ptr),
    ensures
        class_ptr == (if pc == 0 {
            0
        } else {
            actor_class_spec(read_at(*read_ptr, pc.wrapping_add(CONTROLLER_PAWN_OFFSET)), *read_ptr)
        }),
        pc != 0 ==> answered(*read_ptr, pc.wrapping_add(CONTROLLER_PAWN_OFFSET)),
        pc != 0 && read_at(*read_ptr, pc.wrapping_add(CONTROLLER_PAWN_OFFSET)) != 0 ==> answered(
            *read_ptr,
            read_at(*read_ptr, pc.wrapping_add(CONTROLLER_PAWN_OFFSET)).wrapping_add(UOBJECT_CLASS_OFFSET),
        ),
{
    if pc == 0 {
        return 0;
    }
    let pawn = read_value(read_ptr, pc.wrapping_add(CONTROLLER_PAWN_OFFSET));
    get_actor_class(pawn, read_ptr)
}

/// The name of a class: `None` for a null class, else what the resolver
/// gives for the name at `class_ptr + UOBJECT_NAME_OFFSET`.
pub open spec fn class_name_spec<N: Fn(usize, usize) -> Option<String>>(
    resolve: N,
    module_base: usize,
    class_ptr: usize,
) -> Option<String> {
    if class_ptr == 0 {
        None
    } else {
        name_at(resolve, module_base, class_ptr.wrapping_add(UOBJECT_NAME_OFFSET))
    }
}

/// With a resolver that never names anything for a null module base (as
/// `resolve_fname` guarantees), no class has a name for a null module base.
pub proof fn lemma_class_name_null_base<N: Fn(usize, usize) -> Option<String>>(resolve: N, class_ptr: usize)
    requires
        is_name_resolver(resolve),
        forall|a: usize, v: Option<String>| #[trigger] call_ensures(resolve, (0usize, a), v) ==> v is None,
        class_ptr != 0 ==> name_answered(resolve, 0, class_ptr.wrapping_add(UOBJECT_NAME_OFFSET)),
    ensures
        class_name_spec(resolve, 0, class_ptr) is None,
{
}

/// Resolves the name of a class (see `class_name_spec`).
pub fn get_class_name<N: Fn(usize, usize) -> Option<String>>(
    module_base: usize,
    class_ptr: usize,
    resolve: &N,
) -> (name: Option<String>)
    requires
        is_name_resolver(*resolve),
    ensures
        name == class_name_spec(*resolve, module_base, class_ptr),
        class_ptr != 0 ==> name_answered(*resolve, module_base, class_ptr.wrapping_add(UOBJECT_NAME_OFFSET)),
{
    if class_ptr == 0 {
        return None;
    }
    resolve_name(resolve, module_base, class_ptr.wrapping_add(UOBJECT_NAME_OFFSET))
}

/// What kind of enemy a class is, by its name.
#[derive(Clone, Copy, PartialEq, Eq, Structural, Debug)]
pub enum EnemyKind {
    NotEnemy,
    Human,
    Mech,
}

impl Default for EnemyKind {
    fn default() -> (k: Self)
        ensures
            k == EnemyKind::NotEnemy,
    {
        EnemyKind::NotEnemy
    }
}

/// The UTF-8 bytes of a string.
pub open spec fn utf8(s: &str) -> Seq<u8> {
    vstd::utf8::encode_utf8(s@)
}

/// Human enemies are `BP_Human_Enemy*` and `BP_GLHuman_Gladiator*`; mechs are
/// `BP_Harrier*`, `BP_RoverBase*`, `BP_RoverSpider*` and `BP_RoverDriller*`.
pub open spec fn enemy_kind_of(name: Seq<u8>) -> EnemyKind {
    if is_prefix_of(utf8("BP_Human_Enemy"), name) || is_prefix_of(utf8("BP_GLHuman_Gladiator"), name) {
        EnemyKind::Human
    } else if is_prefix_of(utf8("BP_Harrier"), name) || is_prefix_of(utf8("BP_RoverBase"), name)
        || is_prefix_of(utf8("BP_RoverSpider"), name) || is_prefix_of(utf8("BP_RoverDriller"), name) {
        EnemyKind::Mech
    } else {
        EnemyKind::NotEnemy
    }
}

/// Classifies a class name by its prefix (see `enemy_kind_of`).
pub fn classify_enemy(name: &str) -> (k: EnemyKind)
    ensures
        k == enemy_kind_of(utf8(name)),
{
    if str_starts_with(name, "BP_Human_Enemy") || str_starts_with(name, "BP_GLHuman_Gladiator") {
        EnemyKind::Human
    } else if str_starts_with(name, "BP_Harrier") || str_starts_with(name, "BP_RoverBase")
        || str_starts_with(name, "BP_RoverSpider") || str_starts_with(name, "BP_RoverDriller") {
        EnemyKind::Mech
    } else {
        EnemyKind::NotEnemy
    }
}

/// Bytes that begin with `p` still begin with `p` after more are appended.
proof fn lemma_prefix_extends(p: Seq<u8>, b: Seq<u8>, c: Seq<u8>)
    requires
        is_prefix_of(p, b),
    ensures
        is_prefix_of(p, b + c),
{
    assert((b + c).subrange(0, p.len() as int) =~= b.subrange(0, p.len() as int));
}

/// The UTF-8 encoding of two character sequences one after the other is the
/// encoding of the first followed by that of the second.
pub proof fn lemma_utf8_concat(a: Seq<char>, b: Seq<char>)
    ensures
        vstd::utf8::encode_utf8(a + b) == vstd::utf8::encode_utf8(a) + vstd::utf8::encode_utf8(b),
    decreases a.len(),
{
    if a.len() == 0 {
        assert(a + b =~= b);
        assert(vstd::utf8::encode_utf8(a) + vstd::utf8::encode_utf8(b) =~= vstd::utf8::encode_utf8(b));
    } else {
        assert((a + b).drop_first() =~= a.drop_first() + b);
        assert((a + b)[0] == a[0]);
        lemma_utf8_concat(a.drop_first(), b);
        let head = vstd::utf8::encode_utf8(seq![a[0]]);
        assert(vstd::utf8::encode_utf8(a + b) =~= vstd::utf8::encode_utf8(a).subrange(
            0,
            vstd::utf8::encode_utf8(a).len() - vstd::utf8::encode_utf8(a.drop_first()).len(),
        ) + (vstd::utf8::encode_utf8(a.drop_first()) + vstd::utf8::encode_utf8(b)));
    }
}

/// The fourth and fifth bytes of each enemy prefix, which tell the human
/// prefixes from the mech ones.
proof fn lemma_enemy_prefix_bytes()
    ensures
        utf8("BP_Human_Enemy").len() == 14 && utf8("BP_Human_Enemy")[3] == 72u8 && utf8("BP_Human_Enemy")[4] == 117u8,
        utf8("BP_GLHuman_Gladiator").len() == 20 && utf8("BP_GLHuman_Gladiator")[3] == 71u8,
        utf8("BP_Harrier").len() == 10 && utf8("BP_Harrier")[3] == 72u8 && utf8("BP_Harrier")[4] == 97u8,
        utf8("BP_RoverBase").len() == 12 && utf8("BP_RoverBase")[3] == 82u8,
        utf8("BP_RoverSpider").len() == 14 && utf8("BP_RoverSpider")[3] == 82u8,
        utf8("BP_RoverDriller").len() == 15 && utf8("BP_RoverDriller")[3] == 82u8,
{
    reveal_strlit("BP_Human_Enemy");
    reveal_strlit("BP_GLHuman_Gladiator");
    reveal_strlit("BP_Harrier");
    reveal_strlit("BP_RoverBase");
    reveal_strlit("BP_RoverSpider");
    reveal_strlit("BP_RoverDriller");
    vstd::utf8::is_ascii_chars_encode_utf8("BP_Human_Enemy"@);
    vstd::utf8::is_ascii_chars_encode_utf8("BP_GLHuman_Gladiator"@);
    vstd::utf8::is_ascii_chars_encode_utf8("BP_Harrier"@);
    vstd::utf8::is_ascii_chars_encode_utf8("BP_RoverBase"@);
    vstd::utf8::is_ascii_chars_encode_utf8("BP_RoverSpider"@);
    vstd::utf8::is_ascii_chars_encode_utf8("BP_RoverDriller"@);
}

/// Appending text to an enemy's class name keeps its kind.
pub proof fn lemma_enemy_kind_keeps_suffix(name: Seq<char>, suffix: Seq<char>)
    requires
        enemy_kind_of(vstd::utf8::encode_utf8(name)) != EnemyKind::NotEnemy,
    ensures
        enemy_kind_of(vstd::utf8::encode_utf8(name + suffix)) == enemy_kind_of(vstd::utf8::encode_utf8(name)),
{
    let b = vstd::utf8::encode_utf8(name);
    let e = vstd::utf8::encode_utf8(suffix);
    lemma_utf8_concat(name, suffix);
    let c = b + e;
    assert(vstd::utf8::encode_utf8(name + suffix) == c);
    lemma_enemy_prefix_bytes();
    let he = utf8("BP_Human_Enemy");
    let gl = utf8("BP_GLHuman_Gladiator");
    let ha = utf8("BP_Harrier");
    let rb = utf8("BP_RoverBase");
    let rs = utf8("BP_RoverSpider");
    let rd = utf8("BP_RoverDriller");
    if is_prefix_of(he, b) {
        lemma_prefix_extends(he, b, e);
    } else if is_prefix_of(gl, b) {
        lemma_prefix_extends(gl, b, e);
    } else {
        if is_prefix_of(ha, b) {
            lemma_prefix_extends(ha, b, e);
        } else if is_prefix_of(rb, b) {
            lemma_prefix_extends(rb, b, e);
        } else if is_prefix_of(rs, b) {
            lemma_prefix_extends(rs, b, e);
        } else {
            lemma_prefix_extends(rd, b, e);
        }
        assert(c[3] == 72u8 || c[3] == 82u8) by {
            if is_prefix_of(ha, b) {
                assert(c.subrange(0, 10)[3] == c[3]);
            } else if is_prefix_of(rb, b) {
                assert(c.subrange(0, 12)[3] == c[3]);
            } else if is_prefix_of(rs, b) {
                assert(c.subrange(0, 14)[3] == c[3]);
            } else {
                assert(c.subrange(0, 15)[3] == c[3]);
            }
        }
        assert(!is_prefix_of(gl, c)) by {
            if is_prefix_of(gl, c) {
                assert(c.subrange(0, 20)[3] == c[3]);
            }
        }
        assert(!is_prefix_of(he, c)) by {
            if is_prefix_of(he, c) {
                assert(c.subrange(0, 14)[3] == c[3]);
                assert(c.subrange(0, 14)[4] == c[4]);
                assert(is_prefix_of(ha, b));
                assert(c.subrange(0, 10)[4] == c[4]);
            }
        }
    }
}

/// Whether a class name names an enemy of either kind.
pub fn is_enemy_class_name(name: &str) -> (r: bool)
    ensures
        r == (enemy_kind_of(utf8(name)) != EnemyKind::NotEnemy),
{
    classify_enemy(name) != EnemyKind::NotEnemy
}


/// Capacity, in UTF-16 units, of the buffer a name is written into.
pub const FNAME_BUFFER_UNITS: usize = 1024;

/// The UTF-16 decoding of `units`, with U+FFFD in place of invalid data: a
/// unit outside `0xD800..0xE000` is its own character; a high surrogate
/// followed by a low one is one supplementary character; any other
/// surrogate (unpaired) is U+FFFD, and decoding goes on with the next unit.
pub open spec fn utf16_lossy(units: Seq<u16>) -> Seq<char>
    decreases units.len(),
{
    if units.len() == 0 {
        seq![]
    } else {
        let u = units[0];
        if u < 0xD800 || u >= 0xE000 {
            seq![u as char] + utf16_lossy(units.drop_first())
        } else if u < 0xDC00 && units.len() >= 2 && 0xDC00 <= units[1] && units[1] < 0xE000 {
            let c: int = 0x10000 + (u - 0xD800) * 0x400 + (units[1] - 0xDC00);
            seq![c as char] + utf16_lossy(units.subrange(2, units.len() as int))
        } else {
            seq!['\u{FFFD}'] + utf16_lossy(units.drop_first())
        }
    }
}

/// A nonempty run of units decodes to nonempty text.
pub proof fn lemma_utf16_lossy_nonempty(units: Seq<u16>)
    requires
        units.len() > 0,
    ensures
        utf16_lossy(units).len() > 0,
{
}

/// Calls `String::from_utf16_lossy`, which decodes UTF-16 and replaces
/// invalid data with U+FFFD (see `utf16_lossy`).
#[verifier::external_body]
fn string_from_utf16_lossy(units: &[u16]) -> (s: String)
    ensures
        s@ == utf16_lossy(units@),
{
    String::from_utf16_lossy(units)
}

/// The text of a name that the engine wrote as `units` with reported length
/// `raw_len`: none unless `raw_len` is in `1..=FNAME_BUFFER_UNITS` and that
/// many units were written; one trailing NUL is dropped; none when nothing is
/// left.
pub open spec fn fname_text(raw_len: i32, units: Seq<u16>) -> Option<Seq<char>> {
    if raw_len <= 0 || raw_len > FNAME_BUFFER_UNITS || raw_len > units.len() {
        None
    } else {
        let len: int = if units[raw_len - 1] == 0 { raw_len - 1 } else { raw_len as int };
        if len == 0 {
            None
        } else {
            Some(utf16_lossy(units.subrange(0, len)))
        }
    }
}

/// The characters of an optional string.
pub open spec fn opt_chars(s: Option<String>) -> Option<Seq<char>> {
    match s {
        Some(t) => Some(t@),
        None => None,
    }
}

/// Turns what the engine wrote for a name into text (see `fname_text`).
pub fn decode_fname(raw_len: i32, units: &Vec<u16>) -> (name: Option<String>)
    ensures
        opt_chars(name) == fname_text(raw_len, units@),
        name matches Some(t) ==> t@.len() > 0,
{
    if raw_len <= 0 || raw_len as usize > FNAME_BUFFER_UNITS {
        return None;
    }
    let mut len = raw_len as usize;
    if len > units.len() {
        return None;
    }
    if units[len - 1] == 0 {
        len = len - 1;
    }
    if len == 0 {
        return None;
    }
    let mut kept: Vec<u16> = Vec::new();
    let mut i: usize = 0;
    while i < len
        invariant
            0 <= i <= len <= units@.len(),
            kept@ == units@.subrange(0, i as int),
        decreases len - i,
    {
        kept.push(units[i]);
        assert(kept@ =~= units@.subrange(0, i + 1));
        i = i + 1;
    }
    let text = string_from_utf16_lossy(kept.as_slice());
    proof {
        lemma_utf16_lossy_nonempty(kept@);
    }
    Some(text)
}

/// Resolves an `FName` at `fname_addr` to text by calling the engine's
/// `AppendString` at `module_base + APPEND_STRING_OFFSET`. Nothing is called
/// unless the module base is nonzero, `fname_addr` is at least `0x10000`, 8
/// bytes at `fname_addr` are readable and 16 bytes at the function are. The
/// call gives the length the engine reported and the units it wrote;
/// `decode_fname` makes the text.
pub fn resolve_fname<R: Fn(usize, usize) -> bool, A: Fn(usize, usize) -> (i32, Vec<u16>)>(
    module_base: usize,
    fname_addr: usize,
    readable: &R,
    append_string: &A,
) -> (name: Option<String>)
    requires
        forall|a: usize, n: usize| call_requires(*readable, (a, n)),
        forall|f: usize, a: usize| call_requires(*append_string, (f, a)),
    ensures
        module_base == 0 || fname_addr < 0x10000 ==> name is None,
        name matches Some(t) ==> t@.len() > 0,
        module_base != 0 && fname_addr >= 0x10000 ==> {
            let fn_addr = module_base.wrapping_add(APPEND_STRING_OFFSET);
            ||| call_ensures(*readable, (fname_addr, 8usize), false) && name is None
            ||| call_ensures(*readable, (fname_addr, 8usize), true) && call_ensures(
                *readable,
                (fn_addr, 16usize),
                false,
            ) && name is None
            ||| call_ensures(*readable, (fname_addr, 8usize), true) && call_ensures(
                *readable,
                (fn_addr, 16usize),
                true,
            ) && exists|out: (i32, Vec<u16>)|
                #[trigger] call_ensures(*append_string, (fn_addr, fname_addr), out) && opt_chars(name)
                    == fname_text(out.0, out.1@)
        },
{
    if module_base == 0 || fname_addr < 0x10000 {
        return None;
    }
    if !readable(fname_addr, 8) {
        return None;
    }
    let fn_addr = module_base.wrapping_add(APPEND_STRING_OFFSET);
    if !readable(fn_addr, 16) {
        return None;
    }
    let out = append_string(fn_addr, fname_addr);
    decode_fname(out.0, &out.1)
}

/// Whether an actor was rendered recently: false for a null actor; true when
/// it has no mesh or the mesh's flag byte cannot be read; else the
/// `RECENTLY_RENDERED_BIT` of that byte.
pub open spec fn actor_visible_spec<P: Fn(usize) -> usize, B: Fn(usize) -> Option<u8>>(
    actor: usize,
    read_ptr: P,
    read_u8: B,
) -> bool {
    let mesh = read_at(read_ptr, actor.wrapping_add(CHARACTER_MESH_OFFSET));
    if actor == 0 {
        false
    } else if mesh == 0 {
        true
    } else {
        match read_at(read_u8, mesh.wrapping_add(SKINNED_MESH_RENDERED_BYTE)) {
            None => true,
            Some(b) => b & RECENTLY_RENDERED_BIT != 0,
        }
    }
}

/// Reads whether an actor was rendered recently (see `actor_visible_spec`).
pub fn is_actor_visible<P: Fn(usize) -> usize, B: Fn(usize) -> Option<u8>>(
    actor: usize,
    read_ptr: &P,
    read_u8: &B,
) -> (r: bool)
    requires
        is_reader(*read_ptr),
        is_reader(*read_u8),
    ensures
        r == actor_visible_spec(actor, *read_ptr, *read_u8),
        actor != 0 ==> answered(*read_ptr, actor.wrapping_add(CHARACTER_MESH_OFFSET)),
        actor != 0 && read_at(*read_ptr, actor.wrapping_add(CHARACTER_MESH_OFFSET)) != 0 ==> answered(
            *read_u8,
            read_at(*read_ptr, actor.wrapping_add(CHARACTER_MESH_OFFSET)).wrapping_add(SKINNED_MESH_RENDERED_BYTE),
        ),
{
    if actor == 0 {
        return false;
    }
    let mesh = read_value(read_ptr, actor.wrapping_add(CHARACTER_MESH_OFFSET));
    if mesh == 0 {
        return true;
    }
    match read_value(read_u8, mesh.wrapping_add(SKINNED_MESH_RENDERED_BYTE)) {
        None => true,
        Some(b) => (b & RECENTLY_RENDERED_BIT) != 0,
    }
}

/// Highest hit-point value taken as plausible.
pub const MAX_PLAUSIBLE_HP: i32 = 100_000;

/// Whether an enemy is alive. A null actor and a non-enemy count as alive.
/// A human is dead when its `i32` hit points read as a plausible value
/// (`0..=MAX_PLAUSIBLE_HP`) that is not positive. A mech is dead when its
/// dead flag reads as 1; otherwise the verdict on its float hit points
/// decides, and it counts as alive when there is none.
pub open spec fn actor_alive_spec<I: Fn(usize) -> Option<i32>, B: Fn(usize) -> Option<u8>, H: Fn(usize) -> Option<bool>>(
    actor: usize,
    kind: EnemyKind,
    read_i32: I,
    read_u8: B,
    mech_hp_alive: H,
) -> bool {
    if actor == 0 {
        true
    } else {
        match kind {
            EnemyKind::NotEnemy => true,
            EnemyKind::Human => match read_at(read_i32, actor.wrapping_add(HUMAN_HP_OFFSET)) {
                Some(hp) => if 0 <= hp <= MAX_PLAUSIBLE_HP {
                    hp > 0
                } else {
                    true
                },
                None => true,
            },
            EnemyKind::Mech => if read_at(read_u8, actor.wrapping_add(MECH_IS_DEAD_OFFSET)) == Some(1u8) {
                false
            } else {
                match read_at(mech_hp_alive, actor.wrapping_add(MECH_HP_OFFSET)) {
                    Some(alive) => alive,
                    None => true,
                }
            },
        }
    }
}

/// Reads whether an enemy is alive (see `actor_alive_spec`). The verdict on
/// a mech's float hit points comes from `mech_hp_alive`: `Some(hp > 0)` for a
/// finite reading in `0..=100000`, else `None`.
pub fn is_actor_alive<I: Fn(usize) -> Option<i32>, B: Fn(usize) -> Option<u8>, H: Fn(usize) -> Option<bool>>(
    actor: usize,
    kind: EnemyKind,
    read_i32: &I,
    read_u8: &B,
    mech_hp_alive: &H,
) -> (r: bool)
    requires
        is_reader(*read_i32),
        is_reader(*read_u8),
        is_reader(*mech_hp_alive),
    ensures
        r == actor_alive_spec(actor, kind, *read_i32, *read_u8, *mech_hp_alive),
        actor != 0 && kind == EnemyKind::Human ==> answered(*read_i32, actor.wrapping_add(HUMAN_HP_OFFSET)),
        actor != 0 && kind == EnemyKind::Mech ==> answered(*read_u8, actor.wrapping_add(MECH_IS_DEAD_OFFSET)),
        actor != 0 && kind == EnemyKind::Mech && read_at(*read_u8, actor.wrapping_add(MECH_IS_DEAD_OFFSET))
            != Some(1u8) ==> answered(*mech_hp_alive, actor.wrapping_add(MECH_HP_OFFSET)),
{
    if actor == 0 {
        return true;
    }
    match kind {
        EnemyKind::NotEnemy => true,
        EnemyKind::Human => {
            match read_value(read_i32, actor.wrapping_add(HUMAN_HP_OFFSET)) {
                Some(hp) => {
                    if 0 <= hp && hp <= MAX_PLAUSIBLE_HP {
                        return hp > 0;
                    }
                    true
                },
                None => true,
            }
        },
        EnemyKind::Mech => {
            match read_value(read_u8, actor.wrapping_add(MECH_IS_DEAD_OFFSET)) {
                Some(dead) => {
                    if dead == 1 {
                        return false;
                    }
                },
                None => {},
            }
            match read_value(mech_hp_alive, actor.wrapping_add(MECH_HP_OFFSET)) {
                Some(alive) => alive,
                None => true,
            }
        },
    }
}


/// A nonzero actor with a mesh whose flag byte `b` (at mesh + 0x607) can be
/// read is visible exactly when bit 6 of `b` is set; the other bits of the
/// byte do not matter.
pub proof fn lemma_visible_by_rendered_bit<P: Fn(usize) -> usize, B: Fn(usize) -> Option<u8>>(
    actor: usize,
    read_ptr: P,
    read_u8: B,
    b: u8,
)
    requires
        actor != 0,
        read_at(read_ptr, actor.wrapping_add(0x280usize)) != 0,
        read_at(read_u8, read_at(read_ptr, actor.wrapping_add(0x280usize)).wrapping_add(0x607usize)) == Some(b),
    ensures
        actor_visible_spec(actor, read_ptr, read_u8) == ((b >> 6u8) & 1u8 == 1u8),
{
    assert((b & 0x40u8 != 0u8) == ((b >> 6u8) & 1u8 == 1u8)) by (bit_vector);
}

/// A null actor is never visible; a nonzero actor without a mesh, or whose
/// flag byte cannot be read, counts as visible.
pub proof fn lemma_visible_defaults<P: Fn(usize) -> usize, B: Fn(usize) -> Option<u8>>(
    actor: usize,
    read_ptr: P,
    read_u8: B,
)
    ensures
        actor == 0 ==> !actor_visible_spec(actor, read_ptr, read_u8),
        actor != 0 && read_at(read_ptr, actor.wrapping_add(0x280usize)) == 0 ==> actor_visible_spec(actor, read_ptr, read_u8),
        actor != 0 && read_at(read_u8, read_at(read_ptr, actor.wrapping_add(0x280usize)).wrapping_add(0x607usize)) is None
            ==> actor_visible_spec(actor, read_ptr, read_u8),
{
}

/// Two flag bytes that agree on bit 6 give the same visibility, whatever
/// the other bits hold.
pub proof fn lemma_visible_ignores_other_flags<P: Fn(usize) -> usize, B1: Fn(usize) -> Option<u8>, B2: Fn(usize) -> Option<u8>>(
    actor: usize,
    read_ptr: P,
    read_u8_1: B1,
    read_u8_2: B2,
    b1: u8,
    b2: u8,
)
    requires
        actor != 0,
        read_at(read_ptr, actor.wrapping_add(0x280usize)) != 0,
        read_at(read_u8_1, read_at(read_ptr, actor.wrapping_add(0x280usize)).wrapping_add(0x607usize)) == Some(b1),
        read_at(read_u8_2, read_at(read_ptr, actor.wrapping_add(0x280usize)).wrapping_add(0x607usize)) == Some(b2),
        b1 & 0x40u8 == b2 & 0x40u8,
    ensures
        actor_visible_spec(actor, read_ptr, read_u8_1) == actor_visible_spec(actor, read_ptr, read_u8_2),
{
    lemma_visible_by_rendered_bit(actor, read_ptr, read_u8_1, b1);
    lemma_visible_by_rendered_bit(actor, read_ptr, read_u8_2, b2);
    assert(b1 & 0x40u8 == b2 & 0x40u8 ==> ((b1 >> 6u8) & 1u8 == 1u8) == ((b2 >> 6u8) & 1u8 == 1u8)) by (bit_vector);
}

/// A human is judged by its `i32` hit points at actor + 0xDEC alone: a
/// reading in `0..=100000` makes it alive exactly when positive; any other
/// reading, or none, leaves it alive.
pub proof fn lemma_human_alive_by_hp<I: Fn(usize) -> Option<i32>, B: Fn(usize) -> Option<u8>, H: Fn(usize) -> Option<bool>>(
    actor: usize,
    read_i32: I,
    read_u8: B,
    mech_hp_alive: H,
)
    requires
        actor != 0,
    ensures
        actor_alive_spec(actor, EnemyKind::Human, read_i32, read_u8, mech_hp_alive) == match read_at(
            read_i32,
            actor.wrapping_add(0xDECusize),
        ) {
            Some(hp) => hp > 0 || hp < 0 || hp > 100_000,
            None => true,
        },
{
}

/// No byte read and no float verdict changes whether a human is alive: with
/// the same `i32` memory, any two byte readers and hit-point verdicts give
/// the same answer.
pub proof fn lemma_human_alive_ignores_other_reads<I: Fn(usize) -> Option<i32>, B1: Fn(usize) -> Option<u8>, H1: Fn(usize) -> Option<bool>, B2: Fn(usize) -> Option<u8>, H2: Fn(usize) -> Option<bool>>(
    actor: usize,
    read_i32: I,
    read_u8_1: B1,
    mech_hp_alive_1: H1,
    read_u8_2: B2,
    mech_hp_alive_2: H2,
)
    ensures
        actor_alive_spec(actor, EnemyKind::Human, read_i32, read_u8_1, mech_hp_alive_1) == actor_alive_spec(
            actor,
            EnemyKind::Human,
            read_i32,
            read_u8_2,
            mech_hp_alive_2,
        ),
{
}

/// A null actor, and an actor that is no enemy, count as alive whatever
/// memory holds.
pub proof fn lemma_non_enemies_alive<I: Fn(usize) -> Option<i32>, B: Fn(usize) -> Option<u8>, H: Fn(usize) -> Option<bool>>(
    actor: usize,
    kind: EnemyKind,
    read_i32: I,
    read_u8: B,
    mech_hp_alive: H,
)
    requires
        actor == 0 || kind == EnemyKind::NotEnemy,
    ensures
        actor_alive_spec(actor, kind, read_i32, read_u8, mech_hp_alive),
{
}

/// A mech whose dead flag does not read 1 is alive exactly as the verdict
/// on its float hit points (at actor + 0x564) says, and alive when there is
/// none; no `i32` read plays a part.
pub proof fn lemma_mech_alive_by_verdict<I: Fn(usize) -> Option<i32>, B: Fn(usize) -> Option<u8>, H: Fn(usize) -> Option<bool>>(
    actor: usize,
    read_i32: I,
    read_u8: B,
    mech_hp_alive: H,
)
    requires
        actor != 0,
        read_at(read_u8, actor.wrapping_add(0x56Dusize)) != Some(1u8),
    ensures
        actor_alive_spec(actor, EnemyKind::Mech, read_i32, read_u8, mech_hp_alive) == match read_at(
            mech_hp_alive,
            actor.wrapping_add(0x564usize),
        ) {
            Some(alive) => alive,
            None => true,
        },
{
}

/// A mech whose dead flag (the byte at actor + 0x56D) reads 1 is dead,
/// whatever its hit points say.
pub proof fn lemma_mech_dead_flag<I: Fn(usize) -> Option<i32>, B: Fn(usize) -> Option<u8>, H: Fn(usize) -> Option<bool>>(
    actor: usize,
    read_i32: I,
    read_u8: B,
    mech_hp_alive: H,
)
    requires
        actor != 0,
        read_at(read_u8, actor.wrapping_add(0x56Dusize)) == Some(1u8),
    ensures
        !actor_alive_spec(actor, EnemyKind::Mech, read_i32, read_u8, mech_hp_alive),
{
}

/// The pointers from the world down to the player's camera manager. The walk
/// stops at the first null pointer; later fields stay zero.
#[derive(Clone, Copy)]
pub struct CameraPointers {
    pub gi: usize,
    pub lp_array: usize,
    pub local_player: usize,
    pub pc: usize,
    pub cm: usize,
}

/// The pointer one link further: zero after a null pointer, else the pointer
/// at `from + offset`.
pub open spec fn follow<P: Fn(usize) -> usize>(read_ptr: P, from: usize, offset: usize) -> usize {
    if from == 0 {
        0
    } else {
        read_at(read_ptr, from.wrapping_add(offset))
    }
}

/// Game instance, local-players array data, first local player, its player
/// controller and that controller's camera manager, from `world`.
pub open spec fn camera_pointers_spec<P: Fn(usize) -> usize>(world: usize, read_ptr: P) -> CameraPointers {
    let gi = follow(read_ptr, world, GAME_INSTANCE_OFFSET);
    let lp_array = follow(read_ptr, gi, LOCAL_PLAYERS_OFFSET);
    let local_player = follow(read_ptr, lp_array, 0);
    let pc = follow(read_ptr, local_player, PLAYER_CONTROLLER_OFFSET);
    let cm = follow(read_ptr, pc, CAMERA_MANAGER_OFFSET);
    CameraPointers { gi, lp_array, local_player, pc, cm }
}

/// The camera chain stops at the first null pointer: every pointer after a
/// null one is null.
pub proof fn lemma_camera_chain_stops_at_null<P: Fn(usize) -> usize>(world: usize, read_ptr: P)
    ensures
        ({
            let c = camera_pointers_spec(world, read_ptr);
            &&& world == 0 ==> c.gi == 0
            &&& c.gi == 0 ==> c.lp_array == 0
            &&& c.lp_array == 0 ==> c.local_player == 0
            &&& c.local_player == 0 ==> c.pc == 0
            &&& c.pc == 0 ==> c.cm == 0
        }),
{
}

/// Follows the pointers from `world` to the camera manager (see
/// `camera_pointers_spec`).
pub fn get_camera_pointers<P: Fn(usize) -> usize>(world: usize, read_ptr: &P) -> (c: CameraPointers)
    requires
        is_reader(*read_ptr),
    ensures
        c == camera_pointers_spec(world, *read_ptr),
        world != 0 ==> answered(*read_ptr, world.wrapping_add(GAME_INSTANCE_OFFSET)),
        c.gi != 0 ==> answered(*read_ptr, c.gi.wrapping_add(LOCAL_PLAYERS_OFFSET)),
        c.lp_array != 0 ==> answered(*read_ptr, c.lp_array.wrapping_add(0)),
        c.local_player != 0 ==> answered(*read_ptr, c.local_player.wrapping_add(PLAYER_CONTROLLER_OFFSET)),
        c.pc != 0 ==> answered(*read_ptr, c.pc.wrapping_add(CAMERA_MANAGER_OFFSET)),
{
    let mut c = CameraPointers { gi: 0, lp_array: 0, local_player: 0, pc: 0, cm: 0 };
    if world == 0 {
        return c;
    }
    c.gi = read_value(read_ptr, world.wrapping_add(GAME_INSTANCE_OFFSET));
    if c.gi == 0 {
        return c;
    }
    c.lp_array = read_value(read_ptr, c.gi.wrapping_add(LOCAL_PLAYERS_OFFSET));
    if c.lp_array == 0 {
        return c;
    }
    c.local_player = read_value(read_ptr, c.lp_array.wrapping_add(0));
    if c.local_player == 0 {
        return c;
    }
    c.pc = read_value(read_ptr, c.local_player.wrapping_add(PLAYER_CONTROLLER_OFFSET));
    if c.pc == 0 {
        return c;
    }
    c.cm = read_value(read_ptr, c.pc.wrapping_add(CAMERA_MANAGER_OFFSET));
    c
}

/// The addresses of the three points of view a camera manager holds, in the
/// order they are preferred: the private camera cache, the view target and
/// the public camera cache.
pub fn pov_addresses(cm: usize) -> (a: [usize; 3])
    ensures
        a@ == seq![
            cm.wrapping_add(CAMERA_CACHE_PRIVATE_OFFSET).wrapping_add(CAMERA_CACHE_POV_OFFSET),
            cm.wrapping_add(VIEW_TARGET_OFFSET).wrapping_add(CAMERA_CACHE_POV_OFFSET),
            cm.wrapping_add(CAMERA_CACHE_OFFSET).wrapping_add(CAMERA_CACHE_POV_OFFSET),
        ],
{
    let a = [
        cm.wrapping_add(CAMERA_CACHE_PRIVATE_OFFSET).wrapping_add(CAMERA_CACHE_POV_OFFSET),
        cm.wrapping_add(VIEW_TARGET_OFFSET).wrapping_add(CAMERA_CACHE_POV_OFFSET),
        cm.wrapping_add(CAMERA_CACHE_OFFSET).wrapping_add(CAMERA_CACHE_POV_OFFSET),
    ];
    assert(a@ =~= seq![a[0], a[1], a[2]]);
    a
}

/// Which point of view the camera takes: 1 for the private camera cache, 2
/// for the view target, 3 for the public camera cache — the first of them
/// that is valid — and 0 when none is.
pub fn pick_pov_source(private_valid: bool, viewtarget_valid: bool, public_valid: bool) -> (source: u8)
    ensures
        source == (if private_valid {
            1u8
        } else if viewtarget_valid {
            2u8
        } else if public_valid {
            3u8
        } else {
            0u8
        }),
{
    if private_valid {
        1
    } else if viewtarget_valid {
        2
    } else if public_valid {
        3
    } else {
        0
    }
}

/// How many actors of one class were seen.
#[derive(Clone, Copy)]
pub struct ClassGroup {
    pub class_ptr: usize,
    pub count: i32,
}

impl Default for ClassGroup {
    fn default() -> (g: Self)
        ensures
            g == empty_group(),
    {
        ClassGroup { class_ptr: 0, count: 0 }
    }
}

/// The group with no class and no actors.
pub open spec fn empty_group() -> ClassGroup {
    ClassGroup { class_ptr: 0, count: 0 }
}

} // verus!
