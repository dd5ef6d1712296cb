use vstd::prelude::*;

verus! {

/// A reader of the game's memory: it can be asked about every address, and
/// gives one answer per address (memory does not change while it is read).
pub open spec fn is_reader<F: Fn(usize) -> T, T>(read: F) -> bool {
    &&& forall|a: usize| #[trigger] call_requires(read, (a,))
    &&& forall|a: usize, v: T, w: T|
        #[trigger] call_ensures(read, (a,), v) && #[trigger] call_ensures(read, (a,), w) ==> v == w
}

/// What a reader gives for an address.
pub open spec fn read_at<F: Fn(usize) -> T, T>(read: F, a: usize) -> T {
    choose|v: T| call_ensures(read, (a,), v)
}

/// The memory a pointer reader reads, as a function from addresses to
/// values.
pub open spec fn ptr_memory<P: Fn(usize) -> usize>(read_ptr: P) -> spec_fn(usize) -> usize {
    |a: usize| read_at(read_ptr, a)
}

/// A resolver of names: it can be asked about every (module base, name
/// address) pair and gives one answer per pair.
pub open spec fn is_name_resolver<N: Fn(usize, usize) -> Option<String>>(resolve: N) -> bool {
    &&& forall|m: usize, a: usize| #[trigger] call_requires(resolve, (m, a))
    &&& forall|m: usize, a: usize, v: Option<String>, w: Option<String>|
        #[trigger] call_ensures(resolve, (m, a), v) && #[trigger] call_ensures(resolve, (m, a), w)
            ==> v == w
}

/// The name that a resolver gives for a (module base, name address) pair.
pub open spec fn name_at<N: Fn(usize, usize) -> Option<String>>(
    resolve: N,
    module_base: usize,
    a: usize,
) -> Option<String> {
    choose|v: Option<String>| call_ensures(resolve, (module_base, a), v)
}

/// The value of a checked `i32` read, zero where memory could not be read.
pub open spec fn unwrap_i32(v: Option<i32>) -> i32 {
    match v {
        Some(x) => x,
        None => 0,
    }
}

/// The reader was asked about `a`: `read_at(read, a)` is an answer it gave.
pub open spec fn answered<F: Fn(usize) -> T, T>(read: F, a: usize) -> bool {
    call_ensures(read, (a,), read_at(read, a))
}

/// The resolver was asked about (`module_base`, `a`).
pub open spec fn name_answered<N: Fn(usize, usize) -> Option<String>>(resolve: N, module_base: usize, a: usize) -> bool {
    call_ensures(resolve, (module_base, a), name_at(resolve, module_base, a))
}

/// Reads one value at `a`; the result is what the reader gives for `a`.
pub fn read_value<F: Fn(usize) -> T, T>(read: &F, a: usize) -> (v: T)
    requires
        is_reader(*read),
    ensures
        v == read_at(*read, a),
        answered(*read, a),
{
    let v = read(a);
    proof {
        let w = read_at(*read, a);
        assert(call_ensures(*read, (a,), w));
    }
    v
}

/// Resolves the name at `a`; the result is what the resolver gives.
pub fn resolve_name<N: Fn(usize, usize) -> Option<String>>(
    resolve: &N,
    module_base: usize,
    a: usize,
) -> (v: Option<String>)
    requires
        is_name_resolver(*resolve),
    ensures
        v == name_at(*resolve, module_base, a),
        name_answered(*resolve, module_base, a),
{
    let v = resolve(module_base, a);
    proof {
        let w = name_at(*resolve, module_base, a);
        assert(call_ensures(*resolve, (module_base, a), w));
    }
    v
}

} // verus!
