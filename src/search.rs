use vstd::prelude::*;

verus! {

/// `needle` occurs in `hay` starting at position `p`.
pub open spec fn occurs_at(hay: Seq<u8>, needle: Seq<u8>, p: int) -> bool {
    &&& 0 <= p
    &&& p + needle.len() <= hay.len()
    &&& hay.subrange(p, p + needle.len()) == needle
}

/// The first position at or after `p` where `needle` occurs in `hay`.
pub open spec fn find_from(hay: Seq<u8>, needle: Seq<u8>, p: int) -> Option<int>
    decreases hay.len() + 1 - p,
{
    if p < 0 || p + needle.len() > hay.len() {
        None
    } else if occurs_at(hay, needle, p) {
        Some(p)
    } else {
        find_from(hay, needle, p + 1)
    }
}

/// The first position where `needle` occurs in `hay`, if any.
pub open spec fn first_occurrence(hay: Seq<u8>, needle: Seq<u8>) -> Option<int> {
    find_from(hay, needle, 0)
}

/// `find_from` is the least occurrence at or after `p`.
pub proof fn lemma_find_from(hay: Seq<u8>, needle: Seq<u8>, p: int)
    requires
        0 <= p,
    ensures
        match find_from(hay, needle, p) {
            Some(q) => p <= q && occurs_at(hay, needle, q) && forall|k: int|
                p <= k < q ==> !occurs_at(hay, needle, k),
            None => forall|k: int| p <= k ==> !occurs_at(hay, needle, k),
        },
    decreases hay.len() + 1 - p,
{
    if p + needle.len() > hay.len() {
    } else if occurs_at(hay, needle, p) {
    } else {
        lemma_find_from(hay, needle, p + 1);
    }
}

/// Returns the first position at which `needle` occurs in `hay`, or `None`
/// when it occurs nowhere. Every byte of the needle is compared, so a
/// position whose first byte matches but whose tail does not is never
/// reported; a match at position 0 is `Some(0)`.
pub fn search(hay: &Vec<u8>, needle: &Vec<u8>) -> (r: Option<usize>)
    ensures
        r matches Some(p) ==> first_occurrence(hay@, needle@) == Some(p as int),
        r is None ==> first_occurrence(hay@, needle@) is None,
        match r {
            Some(p) => occurs_at(hay@, needle@, p as int) && forall|k: int|
                0 <= k < p ==> !occurs_at(hay@, needle@, k),
            None => forall|k: int| !occurs_at(hay@, needle@, k),
        },
{
    proof {
        lemma_find_from(hay@, needle@, 0);
    }
    if needle.len() > hay.len() {
        return None;
    }
    if needle.len() == 0 {
        assert(hay@.subrange(0, 0) =~= needle@);
        return Some(0);
    }
    let h: usize = hay.len();
    let n: usize = needle.len();
    let last: usize = h - n;
    let mut i: usize = 0;
    while i <= last
        invariant
            last == hay@.len() - needle@.len(),
            h == hay@.len(),
            n == needle@.len(),
            last == h - n,
            i <= last + 1,
            needle@.len() >= 1,
            find_from(hay@, needle@, 0) == find_from(hay@, needle@, i as int),
        decreases last + 1 - i,
    {
        let mut j: usize = 0;
        let mut same: bool = true;
        while j < n
            invariant
                last == hay@.len() - needle@.len(),
                i <= last,
                h == hay@.len(),
                n == needle@.len(),
                i + n <= h,
                j <= n,
                same == forall|k: int| 0 <= k < j ==> hay@[i + k] == needle@[k],
            decreases needle@.len() - j,
        {
            if hay[i + j] != needle[j] {
                same = false;
            }
            j += 1;
        }
        if same {
            assert(hay@.subrange(i as int, i + needle@.len()) =~= needle@);
            assert(occurs_at(hay@, needle@, i as int));
            assert(find_from(hay@, needle@, i as int) == Some(i as int));
            proof {
                lemma_find_from(hay@, needle@, 0);
            }
            return Some(i);
        }
        assert(!occurs_at(hay@, needle@, i as int)) by {
            if occurs_at(hay@, needle@, i as int) {
                assert forall|k: int| 0 <= k < needle@.len() implies hay@[i + k] == needle@[k] by {
                    assert(hay@.subrange(i as int, i + needle@.len())[k] == needle@[k]);
                }
            }
        }
        i += 1;
    }
    proof {
        lemma_find_from(hay@, needle@, 0);
    }
    None
}

} // verus!
