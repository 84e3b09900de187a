//! Paths as byte strings whose components are separated by `/`.
use vstd::prelude::*;

verus! {

pub const SLASH: u8 = 0x2f;

/// Index of the first `/` in `p`, or its length when there is none.
pub open spec fn first_slash(p: Seq<u8>) -> int
    decreases p.len(),
{
    if p.len() == 0 {
        0
    } else if p[0] == SLASH {
        0
    } else {
        1 + first_slash(p.subrange(1, p.len() as int))
    }
}

pub proof fn lemma_first_slash(p: Seq<u8>)
    ensures
        0 <= first_slash(p) <= p.len(),
        first_slash(p) < p.len() ==> p[first_slash(p)] == SLASH,
        forall|k: int| 0 <= k < first_slash(p) ==> p[k] != SLASH,
    decreases p.len(),
{
    if p.len() > 0 && p[0] != SLASH {
        let t = p.subrange(1, p.len() as int);
        lemma_first_slash(t);
        assert forall|k: int| 0 <= k < first_slash(p) implies p[k] != SLASH by {
            if k > 0 {
                assert(p[k] == t[k - 1]);
            }
        }
    }
}

/// The first component of `p`.
pub open spec fn first_component(p: Seq<u8>) -> Seq<u8> {
    p.subrange(0, first_slash(p))
}

/// What follows the first component and its `/`, if the path goes on.
pub open spec fn rest_of_path(p: Seq<u8>) -> Option<Seq<u8>> {
    if first_slash(p) < p.len() {
        Some(p.subrange(first_slash(p) + 1, p.len() as int))
    } else {
        None
    }
}

/// Position of the first `/` at or after `start` in `path`, or its length.
pub fn find_slash(path: &[u8], start: usize) -> (r: usize)
    requires
        start <= path@.len(),
    ensures
        r - start == first_slash(path@.subrange(start as int, path@.len() as int)),
        start <= r <= path@.len(),
{
    let ghost rest = path@.subrange(start as int, path@.len() as int);
    proof {
        lemma_first_slash(rest);
    }
    let mut i: usize = start;
    while i < path.len()
        invariant
            start <= i <= path@.len(),
            rest == path@.subrange(start as int, path@.len() as int),
            0 <= first_slash(rest) <= rest.len(),
            first_slash(rest) < rest.len() ==> rest[first_slash(rest)] == SLASH,
            forall|k: int| 0 <= k < first_slash(rest) ==> rest[k] != SLASH,
            i - start <= first_slash(rest),
        decreases path@.len() - i,
    {
        if path[i] == SLASH {
            assert(rest[i - start] == SLASH);
            return i;
        }
        assert(rest[i - start] != SLASH);
        i = i + 1;
    }
    i
}

/// Where the first `/` of `p` followed by `/` and `t` lies.
pub proof fn lemma_first_slash_concat(p: Seq<u8>, t: Seq<u8>)
    ensures
        first_slash(p) < p.len() ==> first_slash(p.push(SLASH) + t) == first_slash(p),
        first_slash(p) == p.len() ==> first_slash(p.push(SLASH) + t) == p.len(),
    decreases p.len(),
{
    let q = p.push(SLASH) + t;
    lemma_first_slash(p);
    if p.len() == 0 {
        assert(q[0] == SLASH);
    } else if p[0] == SLASH {
        assert(q[0] == SLASH);
    } else {
        let p1 = p.subrange(1, p.len() as int);
        lemma_first_slash_concat(p1, t);
        assert(q.subrange(1, q.len() as int) =~= p1.push(SLASH) + t);
    }
}

} // verus!
