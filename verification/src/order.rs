//! Stable ordering by an integer key, the way `sort_by_key` orders a list:
//! smaller keys first, equal keys in their original order.

use vstd::prelude::*;

verus! {

/// `order` lists every index of `keys` once, by nondecreasing key, with equal
/// keys in index order.
pub open spec fn is_key_order(keys: Seq<u64>, order: Seq<usize>) -> bool {
    &&& order.len() == keys.len()
    &&& forall|k: int| 0 <= k < order.len() ==> (#[trigger] order[k]) < keys.len()
    &&& forall|k1: int, k2: int| 0 <= k1 < order.len() && 0 <= k2 < order.len() && k1 != k2
        ==> order[k1] != order[k2]
    &&& forall|k1: int, k2: int| 0 <= k1 < k2 < order.len()
        ==> keys[#[trigger] order[k1] as int] <= keys[#[trigger] order[k2] as int]
    &&& forall|k1: int, k2: int| 0 <= k1 < k2 < order.len()
        && keys[#[trigger] order[k1] as int] == keys[#[trigger] order[k2] as int] ==> order[k1] < order[k2]
}

spec fn key_prefix(keys: Seq<u64>, order: Seq<usize>, n: int) -> bool {
    &&& order.len() == n
    &&& forall|k: int| 0 <= k < order.len() ==> (#[trigger] order[k]) < n
    &&& forall|k1: int, k2: int| 0 <= k1 < order.len() && 0 <= k2 < order.len() && k1 != k2
        ==> order[k1] != order[k2]
    &&& forall|k1: int, k2: int| 0 <= k1 < k2 < order.len()
        ==> keys[#[trigger] order[k1] as int] <= keys[#[trigger] order[k2] as int]
    &&& forall|k1: int, k2: int| 0 <= k1 < k2 < order.len()
        && keys[#[trigger] order[k1] as int] == keys[#[trigger] order[k2] as int] ==> order[k1] < order[k2]
}

proof fn lemma_key_insert(keys: Seq<u64>, s: Seq<usize>, n: int, p: int)
    requires
        0 <= n < keys.len(),
        n < usize::MAX,
        key_prefix(keys, s, n),
        0 <= p <= s.len(),
        forall|k: int| 0 <= k < p ==> keys[#[trigger] s[k] as int] <= keys[n],
        p < s.len() ==> keys[n] < keys[s[p] as int],
    ensures
        key_prefix(keys, s.insert(p, n as usize), n + 1),
{
    let x = n as usize;
    assert(x as int == n);
    let t = s.insert(p, x);
    assert forall|k: int| p <= k < s.len() implies keys[n] < keys[#[trigger] s[k] as int] by {
        if k > p {
            assert(keys[s[p] as int] <= keys[s[k] as int]);
        }
    }
    assert forall|k: int| 0 <= k < t.len() implies (#[trigger] t[k]) < n + 1 by {
        if k < p { assert(t[k] == s[k]); } else if k > p { assert(t[k] == s[k - 1]); } else { assert(t[k] == x); }
    }
    assert forall|k1: int, k2: int| 0 <= k1 < t.len() && 0 <= k2 < t.len() && k1 != k2
        implies t[k1] != t[k2] by {
        let j1 = if k1 < p { k1 } else { k1 - 1 };
        let j2 = if k2 < p { k2 } else { k2 - 1 };
        if k1 == p {
            assert(t[k1] == x && t[k2] == s[j2] && s[j2] < n);
        } else if k2 == p {
            assert(t[k2] == x && t[k1] == s[j1] && s[j1] < n);
        } else {
            assert(t[k1] == s[j1] && t[k2] == s[j2] && j1 != j2);
        }
    }
    assert forall|k1: int, k2: int| 0 <= k1 < k2 < t.len()
        implies keys[#[trigger] t[k1] as int] <= keys[#[trigger] t[k2] as int] by {
        if k2 < p {
            assert(t[k1] == s[k1] && t[k2] == s[k2]);
        } else if k2 == p {
            assert(t[k1] == s[k1] && t[k2] == x);
        } else if k1 < p {
            assert(t[k1] == s[k1] && t[k2] == s[k2 - 1]);
            assert(keys[s[k1] as int] <= keys[n]);
        } else if k1 == p {
            assert(t[k1] == x && t[k2] == s[k2 - 1]);
        } else {
            assert(t[k1] == s[k1 - 1] && t[k2] == s[k2 - 1]);
        }
    }
    assert forall|k1: int, k2: int| 0 <= k1 < k2 < t.len()
        && keys[#[trigger] t[k1] as int] == keys[#[trigger] t[k2] as int] implies t[k1] < t[k2] by {
        if k2 < p {
            assert(t[k1] == s[k1] && t[k2] == s[k2]);
        } else if k2 == p {
            assert(t[k1] == s[k1] && t[k2] == x && s[k1] < n);
        } else if k1 < p {
            assert(t[k1] == s[k1] && t[k2] == s[k2 - 1]);
            assert(s[k1] < n);
            assert(keys[s[k1] as int] <= keys[n]);
        } else if k1 == p {
            assert(t[k1] == x && t[k2] == s[k2 - 1]);
        } else {
            assert(t[k1] == s[k1 - 1] && t[k2] == s[k2 - 1]);
        }
    }
}

/// The indices of `keys` in stable ascending key order.
pub fn key_order(keys: &Vec<u64>) -> (order: Vec<usize>)
    ensures
        is_key_order(keys@, order@),
{
    let mut order: Vec<usize> = Vec::new();
    let mut i: usize = 0;
    while i < keys.len()
        invariant
            i <= keys@.len(),
            key_prefix(keys@, order@, i as int),
        decreases keys@.len() - i,
    {
        let mut p: usize = 0;
        while p < order.len() && keys[order[p]] <= keys[i]
            invariant
                i < keys@.len(),
                p <= order@.len(),
                key_prefix(keys@, order@, i as int),
                forall|k: int| 0 <= k < p ==> keys@[#[trigger] order@[k] as int] <= keys@[i as int],
            decreases order@.len() - p,
        {
            p = p + 1;
        }
        proof {
            lemma_key_insert(keys@, order@, i as int, p as int);
        }
        order.insert(p, i);
        i = i + 1;
    }
    order
}

} // verus!
