//! Paths as byte strings: joining a name to a directory, and taking the last
//! component of a path.
use vstd::prelude::*;

verus! {

/// The path separator.
pub const SEP: u8 = 0x2f;

/// `base` joined with the relative name `name`: a separator goes between them unless
/// `base` is empty or already ends with one.
pub open spec fn join(base: Seq<u8>, name: Seq<u8>) -> Seq<u8> {
    if base.len() == 0 || base.last() == SEP {
        base + name
    } else {
        base.push(SEP) + name
    }
}

/// Append `name` to the path `base`.
pub fn join_path(base: &Vec<u8>, name: &[u8]) -> (r: Vec<u8>)
    ensures
        r@ == join(base@, name@),
{
    let mut r = base.clone();
    let n = r.len();
    if n > 0 && r[n - 1] != SEP {
        r.push(SEP);
    }
    r.extend_from_slice(name);
    r
}

/// `[s, e)` spans the last component of `p`: only separators follow `e`, and no
/// separator lies between `s` and `e`, which are both bounded by a separator or an end.
pub open spec fn is_name_span(p: Seq<u8>, s: int, e: int) -> bool {
    &&& 0 <= s <= e <= p.len()
    &&& forall|j: int| e <= j < p.len() ==> p[j] == SEP
    &&& (e == 0 || p[e - 1] != SEP)
    &&& forall|j: int| s <= j < e ==> p[j] != SEP
    &&& (s == 0 || p[s - 1] == SEP)
}

/// The last component of the path `p`, trailing separators ignored; empty where there
/// is none (the root `/`, or an empty path).
pub open spec fn last_component(p: Seq<u8>) -> Seq<u8> {
    let (s, e) = choose|s: int, e: int| is_name_span(p, s, e);
    p.subrange(s, e)
}

proof fn lemma_name_span_unique(p: Seq<u8>, s: int, e: int, s2: int, e2: int)
    requires
        is_name_span(p, s, e),
        is_name_span(p, s2, e2),
    ensures
        s == s2 && e == e2,
{
    if e < e2 {
        assert(p[e2 - 1] == SEP);
    } else if e2 < e {
        assert(p[e - 1] == SEP);
    }
    if s < s2 {
        assert(p[s2 - 1] != SEP);
    } else if s2 < s {
        assert(p[s - 1] != SEP);
    }
}

/// The last component of `p`, trailing separators ignored.
pub fn last_component_of(p: &[u8]) -> (r: &[u8])
    ensures
        r@ == last_component(p@),
{
    let mut e: usize = p.len();
    while e > 0 && p[e - 1] == SEP
        invariant
            e <= p@.len(),
            forall|j: int| e <= j < p@.len() ==> p@[j] == SEP,
        decreases e,
    {
        e = e - 1;
    }
    let mut s: usize = e;
    while s > 0 && p[s - 1] != SEP
        invariant
            s <= e <= p@.len(),
            forall|j: int| s <= j < e ==> p@[j] != SEP,
        decreases s,
    {
        s = s - 1;
    }
    assert(is_name_span(p@, s as int, e as int));
    proof {
        let (s2, e2) = choose|s2: int, e2: int| is_name_span(p@, s2, e2);
        lemma_name_span_unique(p@, s as int, e as int, s2, e2);
    }
    vstd::slice::slice_subrange(p, s, e)
}

} // verus!
