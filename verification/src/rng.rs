use vstd::prelude::*;

verus! {

/// rand's thread-local generator, declared so values of it can flow
/// through verified signatures; the library sees nothing inside it.
#[verifier::external_type_specification]
#[verifier::external_body]
pub struct ExThreadRng(rand::rngs::ThreadRng);

/// Relies on rand::thread_rng: hands back the calling thread's generator.
/// Nothing is assumed of it.
#[verifier::external_body]
pub(crate) fn fresh_rng() -> rand::rngs::ThreadRng {
    rand::thread_rng()
}

/// Relies on rand::Rng::gen_range: a sample from a nonempty inclusive
/// range lies inside it; nothing more is assumed of a random value.
#[verifier::external_body]
pub(crate) fn rand_range(rng: &mut rand::rngs::ThreadRng, lo: i64, hi: i64) -> (r: i64)
    requires
        lo <= hi,
    ensures
        lo <= r <= hi,
{
    rand::Rng::gen_range(rng, lo..=hi)
}

/// Relies on rand::seq::SliceRandom::shuffle: a Fisher-Yates pass permutes
/// the slice in place, so the multiset of its elements is unchanged.
#[verifier::external_body]
pub(crate) fn shuffle_ids(v: &mut Vec<usize>, rng: &mut rand::rngs::ThreadRng)
    ensures
        final(v)@.to_multiset() == old(v)@.to_multiset(),
{
    rand::seq::SliceRandom::shuffle(v.as_mut_slice(), rng)
}

/// A sequence drawn from the same multiset as one whose elements all lie
/// below `n` has elements all below `n`, and the same length.
pub proof fn lemma_perm_bounds(a: Seq<usize>, b: Seq<usize>, n: int)
    requires
        a.to_multiset() == b.to_multiset(),
        forall|i: int| 0 <= i < a.len() ==> #[trigger] a[i] < n,
    ensures
        b.len() == a.len(),
        forall|i: int| 0 <= i < b.len() ==> #[trigger] b[i] < n,
{
    a.to_multiset_ensures();
    b.to_multiset_ensures();
    assert forall|i: int| 0 <= i < b.len() implies #[trigger] b[i] < n by {
        assert(b.contains(b[i]));
        assert(a.to_multiset().count(b[i]) > 0);
        assert(a.contains(b[i]));
        let j = choose|j: int| 0 <= j < a.len() && a[j] == b[i];
        assert(a[j] < n);
    }
}

/// A sequence drawn from the same multiset as a duplicate-free one is
/// itself duplicate-free.
pub proof fn lemma_perm_no_duplicates(a: Seq<usize>, b: Seq<usize>)
    requires
        a.to_multiset() == b.to_multiset(),
        a.no_duplicates(),
    ensures
        b.no_duplicates(),
{
    a.lemma_multiset_has_no_duplicates();
    b.lemma_multiset_has_no_duplicates_conv();
}

} // verus!
