use vstd::prelude::*;

verus! {

/// `prefix` is a prefix of `s`.
pub open spec fn is_prefix_of(prefix: Seq<u8>, s: Seq<u8>) -> bool {
    prefix.len() <= s.len() && s.subrange(0, prefix.len() as int) == prefix
}

/// Whether the UTF-8 encoding of `s` begins with that of `prefix`, which is
/// what `str::starts_with` with a string pattern decides.
pub fn str_starts_with(s: &str, prefix: &str) -> (r: bool)
    ensures
        r == is_prefix_of(vstd::utf8::encode_utf8(prefix@), vstd::utf8::encode_utf8(s@)),
{
    let sb = s.as_bytes();
    let pb = prefix.as_bytes();
    if pb.len() > sb.len() {
        return false;
    }
    let mut i: usize = 0;
    while i < pb.len()
        invariant
            pb@ == vstd::utf8::encode_utf8(prefix@),
            sb@ == vstd::utf8::encode_utf8(s@),
            pb@.len() <= sb@.len(),
            0 <= i <= pb@.len(),
            sb@.subrange(0, i as int) == pb@.subrange(0, i as int),
        decreases pb@.len() - i,
    {
        if sb[i] != pb[i] {
            assert(sb@.subrange(0, pb@.len() as int)[i as int] != pb@[i as int]);
            return false;
        }
        assert(sb@.subrange(0, i + 1) =~= sb@.subrange(0, i as int).push(sb@[i as int]));
        assert(pb@.subrange(0, i + 1) =~= pb@.subrange(0, i as int).push(pb@[i as int]));
        i = i + 1;
    }
    assert(pb@.subrange(0, pb@.len() as int) =~= pb@);
    true
}

/// `part` occurs somewhere in `s`, as a contiguous run.
pub open spec fn is_infix_of(part: Seq<u8>, s: Seq<u8>) -> bool {
    exists|i: int| 0 <= i && i + part.len() <= s.len() && #[trigger] s.subrange(i, i + part.len()) == part
}

/// Whether the UTF-8 encoding of `needle` occurs in that of `s`, which is
/// what `str::contains` with a string pattern decides.
pub fn str_contains(s: &str, needle: &str) -> (r: bool)
    ensures
        r == is_infix_of(vstd::utf8::encode_utf8(needle@), vstd::utf8::encode_utf8(s@)),
{
    let sb = s.as_bytes();
    let nb = needle.as_bytes();
    let ghost sv = vstd::utf8::encode_utf8(s@);
    let ghost nv = vstd::utf8::encode_utf8(needle@);
    if nb.len() > sb.len() {
        return false;
    }
    let slen = sb.len();
    let last = slen - nb.len();
    let mut i: usize = 0;
    loop
        invariant
            sv == vstd::utf8::encode_utf8(s@),
            nv == vstd::utf8::encode_utf8(needle@),
            sb@ == sv,
            nb@ == nv,
            nb@.len() <= sb@.len(),
            last == sb@.len() - nb@.len(),
            slen == sb@.len(),
            0 <= i <= last,
            forall|k: int| 0 <= k < i ==> #[trigger] sv.subrange(k, k + nv.len()) != nv,
        decreases last - i,
    {
        let mut j: usize = 0;
        let mut same = true;
        while j < nb.len()
            invariant
                sb@ == sv,
                nb@ == nv,
                nb@.len() <= sb@.len(),
                slen == sb@.len(),
                i <= last,
                last == sb@.len() - nb@.len(),
                0 <= j <= nb@.len(),
                same == (forall|t: int| 0 <= t < j ==> sv[i + t] == nv[t]),
            decreases nb@.len() - j,
        {
            if sb[i + j] != nb[j] {
                same = false;
            }
            j = j + 1;
        }
        if same {
            assert(sv.subrange(i as int, i + nv.len()) =~= nv);
            assert(is_infix_of(nv, sv));
            return true;
        }
        assert(sv.subrange(i as int, i + nv.len()) != nv) by {
            let t = choose|t: int| 0 <= t < nv.len() && sv[i + t] != nv[t];
            assert(sv.subrange(i as int, i + nv.len())[t] == sv[i + t]);
        }
        if i == last {
            assert(!is_infix_of(nv, sv)) by {
                if is_infix_of(nv, sv) {
                    let k = choose|k: int| 0 <= k && k + nv.len() <= sv.len() && #[trigger] sv.subrange(k, k + nv.len()) == nv;
                    assert(k <= i);
                }
            }
            return false;
        }
        i = i + 1;
    }
}

/// What `str::to_lowercase` makes of a string's characters.
pub uninterp spec fn lowercase(chars: Seq<char>) -> Seq<char>;

/// Calls `str::to_lowercase`, which maps every character to its Unicode
/// lowercase form; the contract only names the result.
#[verifier::external_body]
pub(crate) fn str_to_lowercase(s: &str) -> (r: String)
    ensures
        r@ == lowercase(s@),
{
    s.to_lowercase()
}

/// Whether two strings hold the same characters.
pub fn str_equal(a: &str, b: &str) -> (r: bool)
    ensures
        r == (a@ == b@),
{
    let ab = a.as_bytes();
    let bb = b.as_bytes();
    proof {
        vstd::utf8::encode_utf8_decode_utf8(a@);
        vstd::utf8::encode_utf8_decode_utf8(b@);
    }
    if ab.len() != bb.len() {
        return false;
    }
    let mut i: usize = 0;
    while i < ab.len()
        invariant
            ab@ == vstd::utf8::encode_utf8(a@),
            bb@ == vstd::utf8::encode_utf8(b@),
            ab@.len() == bb@.len(),
            0 <= i <= ab@.len(),
            forall|j: int| 0 <= j < i ==> ab@[j] == bb@[j],
        decreases ab@.len() - i,
    {
        if ab[i] != bb[i] {
            return false;
        }
        i = i + 1;
    }
    assert(ab@ =~= bb@);
    true
}

} // verus!
