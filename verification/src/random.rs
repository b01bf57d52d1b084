use vstd::prelude::*;

use rand::rngs::ThreadRng;
use rand::seq::SliceRandom;
use rand::RngExt;

verus! {

#[verifier::external_type_specification]
#[verifier::external_body]
pub struct ExThreadRng(ThreadRng);

/// `p` lists each of `0..n` exactly once.
pub open spec fn is_permutation(p: Seq<int>, n: int) -> bool {
    &&& p.len() == n
    &&& forall|i: int| 0 <= i < n ==> 0 <= #[trigger] p[i] < n
    &&& forall|i: int, j: int| 0 <= i < j < n ==> p[i] != p[j]
}

/// `after` holds the items of `before`, item `k` of `after` being item `p[k]` of `before`.
pub open spec fn rearranged_by<T>(after: Seq<T>, before: Seq<T>, p: Seq<int>) -> bool {
    &&& after.len() == before.len()
    &&& is_permutation(p, before.len() as int)
    &&& forall|k: int| 0 <= k < after.len() ==> #[trigger] after[k] == before[p[k]]
}

/// `after` holds the items of `before` in some order.
pub open spec fn is_rearrangement<T>(after: Seq<T>, before: Seq<T>) -> bool {
    exists|p: Seq<int>| rearranged_by(after, before, p)
}

/// The permutation that leaves everything in place.
pub open spec fn identity(n: int) -> Seq<int> {
    Seq::new(n as nat, |i: int| i)
}

/// The permutation that applies `q` after `p`.
pub open spec fn compose(p: Seq<int>, q: Seq<int>) -> Seq<int> {
    Seq::new(p.len(), |k: int| q[p[k]])
}

/// The identity is a permutation, and rearranges a sequence into itself.
pub proof fn lemma_identity<T>(s: Seq<T>)
    ensures
        is_permutation(identity(s.len() as int), s.len() as int),
        rearranged_by(s, s, identity(s.len() as int)),
        is_rearrangement(s, s),
{
}

/// Applying one permutation after another gives a permutation.
pub proof fn lemma_compose_permutations(p: Seq<int>, q: Seq<int>, n: int)
    requires
        is_permutation(p, n),
        is_permutation(q, n),
    ensures
        is_permutation(compose(p, q), n),
{
    let r = compose(p, q);
    assert forall|i: int| 0 <= i < n implies 0 <= #[trigger] r[i] < n by {
        assert(0 <= p[i] < n);
    }
    assert forall|i: int, j: int| 0 <= i < j < n implies r[i] != r[j] by {
        assert(0 <= p[i] < n && 0 <= p[j] < n);
        assert(p[i] != p[j]);
        if p[i] < p[j] {
            assert(q[p[i]] != q[p[j]]);
        } else {
            assert(q[p[j]] != q[p[i]]);
        }
    }
}

/// Rearranging a rearrangement gives a rearrangement of the starting sequence, by the composed
/// permutation.
pub proof fn lemma_compose<T>(a: Seq<T>, b: Seq<T>, c: Seq<T>, p: Seq<int>, q: Seq<int>)
    requires
        rearranged_by(a, b, p),
        rearranged_by(b, c, q),
    ensures
        rearranged_by(a, c, compose(p, q)),
        is_rearrangement(a, c),
{
    let r = compose(p, q);
    lemma_compose_permutations(p, q, c.len() as int);
    assert forall|k: int| 0 <= k < a.len() implies #[trigger] a[k] == c[r[k]] by {
        assert(a[k] == b[p[k]]);
        assert(b[p[k]] == c[q[p[k]]]);
    }
    assert(rearranged_by(a, c, r));
}

/// A fresh handle to the thread-local generator, from `rand::rng()`. That function panics
/// only if the operating system's random source fails during the first seeding; nothing
/// is claimed of the generator.
#[verifier::external_body]
pub(crate) fn new_rng() -> ThreadRng {
    rand::rng()
}

/// A number drawn from `0..n` with `RngExt::random_range`, which panics on an empty
/// range. Claimed: the result lies in `0..n`; which one it is rests on chance.
#[verifier::external_body]
pub(crate) fn random_below(rng: &mut ThreadRng, n: usize) -> (r: usize)
    requires
        n > 0,
    ensures
        r < n,
{
    rng.random_range(0..n)
}

/// Shuffles `items` in place with `SliceRandom::shuffle`. Claimed: the items afterwards are
/// those before, each exactly once, in some order; which order rests on chance.
#[verifier::external_body]
pub(crate) fn shuffle<T>(items: &mut Vec<T>, rng: &mut ThreadRng)
    ensures
        is_rearrangement(final(items)@, old(items)@),
{
    items.shuffle(rng);
}

} // verus!
