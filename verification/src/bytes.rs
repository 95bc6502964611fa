//! Helpers on byte vectors shared across the crate: verified clone and
//! equality, and the substring predicate used by the scan and the processors.

use vstd::prelude::*;

verus! {

/// `needle` occurs contiguously inside `hay`.
pub open spec fn is_substring_of(needle: Seq<u8>, hay: Seq<u8>) -> bool {
    exists|off: int|
        #![trigger hay.subrange(off, off + needle.len())]
        0 <= off && off + needle.len() <= hay.len() && hay.subrange(
            off,
            off + needle.len(),
        ) == needle
}

/// Substring containment is transitive.
pub proof fn lemma_substring_trans(a: Seq<u8>, b: Seq<u8>, c: Seq<u8>)
    requires
        is_substring_of(a, b),
        is_substring_of(b, c),
    ensures
        is_substring_of(a, c),
{
    let oa = choose|oa: int|
        #![trigger b.subrange(oa, oa + a.len())]
        0 <= oa && oa + a.len() <= b.len() && b.subrange(oa, oa + a.len()) == a;
    let ob = choose|ob: int|
        #![trigger c.subrange(ob, ob + b.len())]
        0 <= ob && ob + b.len() <= c.len() && c.subrange(ob, ob + b.len()) == b;
    assert(c.subrange(ob + oa, ob + oa + a.len()) =~= a) by {
        assert forall|k: int| 0 <= k < a.len() implies c[ob + oa + k] == a[k] by {
            assert(b[oa + k] == a[k]);
            assert(c[ob + (oa + k)] == b[oa + k]);
        }
    }
}

/// Copies a byte vector.
pub fn clone_bytes(v: &Vec<u8>) -> (r: Vec<u8>)
    ensures
        r@ == v@,
{
    let mut out: Vec<u8> = Vec::new();
    let mut i: usize = 0;
    while i < v.len()
        invariant
            i <= v.len(),
            out@ == v@.subrange(0, i as int),
        decreases v.len() - i,
    {
        out.push(v[i]);
        i += 1;
    }
    proof {
        assert(out@ =~= v@);
    }
    out
}

/// Copies `v[a..b]` into a fresh vector.
pub fn subrange_vec(v: &Vec<u8>, a: usize, b: usize) -> (r: Vec<u8>)
    requires
        a <= b <= v.len(),
    ensures
        r@ == v@.subrange(a as int, b as int),
{
    let mut out: Vec<u8> = Vec::new();
    let mut i: usize = a;
    while i < b
        invariant
            a <= i <= b <= v.len(),
            out@ == v@.subrange(a as int, i as int),
        decreases b - i,
    {
        out.push(v[i]);
        proof {
            assert(out@ =~= v@.subrange(a as int, i + 1));
        }
        i += 1;
    }
    out
}

/// Exact equality of two byte vectors.
pub fn bytes_eq(a: &Vec<u8>, b: &Vec<u8>) -> (r: bool)
    ensures
        r == (a@ == b@),
{
    if a.len() != b.len() {
        return false;
    }
    let mut i: usize = 0;
    while i < a.len()
        invariant
            i <= a.len(),
            a@.len() == b@.len(),
            forall|j: int| 0 <= j < i ==> a@[j] == b@[j],
        decreases a.len() - i,
    {
        if a[i] != b[i] {
            return false;
        }
        i += 1;
    }
    proof {
        assert(a@ =~= b@);
    }
    true
}

/// Whether one of the listed byte vectors equals `t`.
pub fn list_contains(list: &Vec<Vec<u8>>, t: &Vec<u8>) -> (r: bool)
    ensures
        r == list@.map_values(|v: Vec<u8>| v@).contains(t@),
{
    let ghost vs = list@.map_values(|v: Vec<u8>| v@);
    let mut i: usize = 0;
    while i < list.len()
        invariant
            i <= list@.len(),
            vs == list@.map_values(|v: Vec<u8>| v@),
            forall|j: int| 0 <= j < i ==> vs[j] != t@,
        decreases list.len() - i,
    {
        if bytes_eq(&list[i], t) {
            proof {
                assert(vs[i as int] == t@);
            }
            return true;
        }
        i += 1;
    }
    false
}

/// Whether the bytes of `needle` stand at offset `off` of `hay`.
pub fn matches_at(hay: &Vec<u8>, needle: &Vec<u8>, off: usize) -> (r: bool)
    requires
        off + needle@.len() <= hay@.len(),
    ensures
        r == (hay@.subrange(off as int, off + needle@.len()) == needle@),
{
    let mut i: usize = 0;
    while i < needle.len()
        invariant
            i <= needle.len(),
            off + needle.len() <= hay.len(),
            forall|j: int| 0 <= j < i ==> hay@[off + j] == needle@[j],
        decreases needle.len() - i,
    {
        if hay[off + i] != needle[i] {
            proof {
                assert(hay@.subrange(off as int, off + needle@.len())[i as int] != needle@[i as int]);
            }
            return false;
        }
        i += 1;
    }
    proof {
        assert(hay@.subrange(off as int, off + needle@.len()) =~= needle@);
    }
    true
}

/// Searches for `needle` inside `hay`; the result says exactly whether the
/// substring occurs.
pub fn contains_subslice(hay: &Vec<u8>, needle: &Vec<u8>) -> (r: bool)
    ensures
        r == is_substring_of(needle@, hay@),
{
    if needle.len() > hay.len() {
        proof {
            assert(!is_substring_of(needle@, hay@));
        }
        return false;
    }
    let end = hay.len() - needle.len();
    let mut off: usize = 0;
    loop
        invariant
            needle.len() <= hay.len(),
            end == hay.len() - needle.len(),
            off <= end,
            forall|o: int|
                0 <= o < off ==> #[trigger] hay@.subrange(o, o + needle@.len()) != needle@,
        ensures
            forall|o: int|
                0 <= o <= end ==> #[trigger] hay@.subrange(o, o + needle@.len()) != needle@,
        decreases end - off,
    {
        if matches_at(hay, needle, off) {
            proof {
                assert(is_substring_of(needle@, hay@));
            }
            return true;
        }
        if off == end {
            break;
        }
        off += 1;
    }
    proof {
        assert forall|o: int| 0 <= o && o + needle@.len() <= hay@.len() implies #[trigger] hay@.subrange(
            o,
            o + needle@.len(),
        ) != needle@ by {
            assert(0 <= o <= end);
        }
    }
    false
}

} // verus!
