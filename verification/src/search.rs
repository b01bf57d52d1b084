use vstd::prelude::*;

verus! {

/// `i` is the first index below `n` that satisfies `p`.
pub open spec fn is_first_where(n: int, p: spec_fn(int) -> bool, i: int) -> bool {
    &&& 0 <= i < n
    &&& p(i)
    &&& forall|j: int| 0 <= j < i ==> !#[trigger] p(j)
}

/// The first index below `n` that satisfies `p`, if any does.
pub open spec fn first_where(n: int, p: spec_fn(int) -> bool) -> Option<int> {
    if exists|i: int| is_first_where(n, p, i) {
        Some(choose|i: int| is_first_where(n, p, i))
    } else {
        None
    }
}

/// A first index found by a scan is the one `first_where` names.
pub proof fn lemma_first_where_found(n: int, p: spec_fn(int) -> bool, i: int)
    requires
        is_first_where(n, p, i),
    ensures
        first_where(n, p) == Some(i),
{
    let k = choose|k: int| is_first_where(n, p, k);
    assert(is_first_where(n, p, k));
    if k < i {
        assert(!p(k));
    }
    if i < k {
        assert(!p(i));
    }
}

/// When no index below `n` satisfies `p`, there is no first one.
pub proof fn lemma_first_where_none(n: int, p: spec_fn(int) -> bool)
    requires
        forall|j: int| 0 <= j < n ==> !#[trigger] p(j),
    ensures
        first_where(n, p) is None,
{
}

/// When some index below `n` satisfies `p`, a first one exists.
pub proof fn lemma_first_where_exists(n: int, p: spec_fn(int) -> bool, k: int)
    requires
        0 <= k < n,
        p(k),
    ensures
        first_where(n, p) is Some,
    decreases k,
{
    if forall|j: int| 0 <= j < k ==> !#[trigger] p(j) {
        assert(is_first_where(n, p, k));
    } else {
        let j = choose|j: int| 0 <= j < k && #[trigger] p(j);
        lemma_first_where_exists(n, p, j);
    }
}

/// `i` is the last index below `n` that satisfies `p`.
pub open spec fn is_last_where(n: int, p: spec_fn(int) -> bool, i: int) -> bool {
    &&& 0 <= i < n
    &&& p(i)
    &&& forall|j: int| i < j < n ==> !#[trigger] p(j)
}

/// The last index below `n` that satisfies `p`, if any does.
pub open spec fn last_where(n: int, p: spec_fn(int) -> bool) -> Option<int> {
    if exists|i: int| is_last_where(n, p, i) {
        Some(choose|i: int| is_last_where(n, p, i))
    } else {
        None
    }
}

/// A last index found by a scan is the one `last_where` names.
pub proof fn lemma_last_where_found(n: int, p: spec_fn(int) -> bool, i: int)
    requires
        is_last_where(n, p, i),
    ensures
        last_where(n, p) == Some(i),
{
    let k = choose|k: int| is_last_where(n, p, k);
    assert(is_last_where(n, p, k));
    if k < i {
        assert(!p(i));
    }
    if i < k {
        assert(!p(k));
    }
}

/// When no index below `n` satisfies `p`, there is no last one.
pub proof fn lemma_last_where_none(n: int, p: spec_fn(int) -> bool)
    requires
        forall|j: int| 0 <= j < n ==> !#[trigger] p(j),
    ensures
        last_where(n, p) is None,
{
}

/// `n` is the least member of `s`.
pub open spec fn is_least(s: Set<nat>, n: nat) -> bool {
    &&& s.contains(n)
    &&& forall|m: nat| s.contains(m) ==> n <= m
}

/// The least member of `s`, meaningful when `s` is not empty.
pub open spec fn least(s: Set<nat>) -> nat {
    choose|n: nat| is_least(s, n)
}

/// A least member found by a scan is the one `least` names.
pub proof fn lemma_least(s: Set<nat>, n: nat)
    requires
        is_least(s, n),
    ensures
        least(s) == n,
{
    let k = choose|k: nat| is_least(s, k);
    assert(is_least(s, k));
    assert(k <= n && n <= k);
}

/// `v` is strictly increasing.
pub open spec fn increasing(v: Seq<usize>) -> bool {
    forall|i: int, j: int| 0 <= i < j < v.len() ==> v[i] < v[j]
}

/// `n` occurs in `v`.
pub open spec fn holds(v: Seq<usize>, n: nat) -> bool {
    exists|k: int| 0 <= k < v.len() && v[k] == n
}

/// Inserts `n` into the increasing `v` unless it is there; says whether it was inserted.
pub fn insert_sorted(v: &mut Vec<usize>, n: usize) -> (inserted: bool)
    requires
        increasing(old(v)@),
    ensures
        increasing(final(v)@),
        inserted == !holds(old(v)@, n as nat),
        forall|m: nat| holds(final(v)@, m) <==> (holds(old(v)@, m) || m == n),
{
    let mut k: usize = 0;
    while k < v.len() && v[k] < n
        invariant
            k <= v.len(),
            v@ == old(v)@,
            increasing(v@),
            forall|j: int| 0 <= j < k ==> v@[j] < n,
        decreases v.len() - k,
    {
        k += 1;
    }
    if k < v.len() && v[k] == n {
        return false;
    }
    assert forall|j: int| 0 <= j < v.len() implies v@[j] != n by {
        if j >= k {
            assert(v@[k as int] > n);
            if j > k {
                assert(v@[k as int] < v@[j]);
            }
        }
    }
    v.insert(k, n);
    proof {
        assert forall|m: nat| holds(v@, m) <==> (holds(old(v)@, m) || m == n) by {
            if holds(v@, m) {
                let q = choose|q: int| 0 <= q < v@.len() && v@[q] == m;
                if q < k {
                    assert(old(v)@[q] == m);
                } else if q > k {
                    assert(old(v)@[q - 1] == m);
                }
            }
            if holds(old(v)@, m) {
                let q = choose|q: int| 0 <= q < old(v)@.len() && old(v)@[q] == m;
                if q < k {
                    assert(v@[q] == m);
                } else {
                    assert(v@[q + 1] == m);
                }
            }
            if m == n {
                assert(v@[k as int] == m);
            }
        }
    }
    true
}

} // verus!
