//! The pseudo-random generator and the seeded shuffle, together with the
//! sequence-summing lemmas the rest of the crate builds its counting
//! arguments on.

use vstd::multiset::Multiset;
use vstd::prelude::*;

verus! {

/// One step of the linear-congruential update, on machine words with
/// wraparound arithmetic.
pub open spec fn lcg_next(s: usize) -> usize {
    (((s as int) * 1103515245 + 12345) % (usize::MAX as int + 1)) as usize
}

/// The 15-bit value extracted from a generator state: bits 16 through 30.
pub open spec fn lcg_output(s: usize) -> usize {
    (((s as int) / 0x10000) % 0x8000) as usize
}

/// Advance the pseudo-random state once and return the next 15-bit value.
pub fn rng(seed: &mut usize) -> (r: usize)
    ensures
        *final(seed) == lcg_next(*old(seed)),
        r == lcg_output(*final(seed)),
        r < 0x8000,
{
    let modulus: u128 = usize::MAX as u128 + 1;
    let stepped: u128 = ((*seed as u128) * 1103515245 + 12345) % modulus;
    assert(stepped <= usize::MAX as u128);
    *seed = stepped as usize;
    (*seed / 0x10000) % 0x8000
}

/// Two positions of a sequence exchanged.
pub open spec fn swapped<T>(s: Seq<T>, i: int, j: int) -> Seq<T> {
    s.update(i, s[j]).update(j, s[i])
}

/// The Fisher-Yates walk from position `i` down to position 0: at each
/// position the generator is stepped once and the position is exchanged
/// with a pseudo-randomly chosen position at or below it.
pub open spec fn fy_rec<T>(s: Seq<T>, seed: usize, i: int) -> (Seq<T>, usize)
    decreases i,
{
    if i < 0 || i >= s.len() {
        (s, seed)
    } else {
        let s2 = lcg_next(seed);
        let j = (lcg_output(s2) as int) % (i + 1);
        let t = swapped(s, i, j);
        if i == 0 {
            (t, s2)
        } else {
            fy_rec(t, s2, i - 1)
        }
    }
}

/// The permutation a seeded Fisher-Yates shuffle produces, paired with the
/// generator state left behind by the walk.
pub open spec fn fy<T>(s: Seq<T>, seed: usize) -> (Seq<T>, usize) {
    fy_rec(s, seed, s.len() - 1)
}

/// Shuffle a sequence in the seeded Fisher-Yates order, advancing the seed
/// as a side effect so that repeated calls continue the stream.
pub fn randomize<T: Copy>(data: Vec<T>, seed: &mut usize) -> (r: Vec<T>)
    ensures
        r@ == fy(data@, *old(seed)).0,
        *final(seed) == fy(data@, *old(seed)).1,
        r@.len() == data@.len(),
        r@.to_multiset() == data@.to_multiset(),
{
    let ghost orig = data@;
    let ghost seed0 = *seed;
    let mut item = data;
    let mut i: usize = item.len();
    while i > 0
        invariant
            i <= item.len(),
            item@.len() == orig.len(),
            i > 0 ==> fy(orig, seed0) == fy_rec(item@, *seed, i - 1),
            i == 0 ==> fy(orig, seed0) == (item@, *seed),
        decreases i,
    {
        let ghost pre = item@;
        let ghost pre_seed = *seed;
        i = i - 1;
        let r = rng(seed);
        let j = r % (i + 1);
        let vi = item[i];
        let vj = item[j];
        item[i] = vj;
        item[j] = vi;
        proof {
            assert(item@ =~= swapped(pre, i as int, j as int));
            assert(fy_rec(pre, pre_seed, i as int) == if i == 0 {
                (item@, *seed)
            } else {
                fy_rec(item@, *seed, i - 1)
            });
        }
    }
    proof {
        lemma_fy_len(orig, seed0);
        lemma_fy_multiset(orig, seed0);
    }
    item
}

/// The sum, over a sequence, of an integer weight given to each element.
pub open spec fn sum_by<T>(s: Seq<T>, f: spec_fn(T) -> int) -> int
    decreases s.len(),
{
    if s.len() == 0 {
        0
    } else {
        sum_by(s.drop_last(), f) + f(s.last())
    }
}

/// The weight that counts occurrences of one value.
pub open spec fn eq_weight<T>(x: T) -> spec_fn(T) -> int {
    |e: T| if e == x { 1int } else { 0int }
}

/// How often a value occurs in a sequence.
pub open spec fn count_of<T>(s: Seq<T>, x: T) -> int {
    sum_by(s, eq_weight(x))
}

/// Replacing one element changes a sum by the difference of the weights.
pub proof fn lemma_sum_by_update<T>(s: Seq<T>, i: int, x: T, f: spec_fn(T) -> int)
    requires
        0 <= i < s.len(),
    ensures
        sum_by(s.update(i, x), f) == sum_by(s, f) - f(s[i]) + f(x),
    decreases s.len(),
{
    let t = s.update(i, x);
    if i == s.len() - 1 {
        assert(t.drop_last() =~= s.drop_last());
    } else {
        assert(t.drop_last() =~= s.drop_last().update(i, x));
        assert(t.last() == s.last());
        lemma_sum_by_update(s.drop_last(), i, x, f);
    }
}

/// Exchanging two elements leaves every sum unchanged.
pub proof fn lemma_sum_by_swap<T>(s: Seq<T>, i: int, j: int, f: spec_fn(T) -> int)
    requires
        0 <= i < s.len(),
        0 <= j < s.len(),
    ensures
        sum_by(swapped(s, i, j), f) == sum_by(s, f),
{
    lemma_sum_by_update(s, i, s[j], f);
    lemma_sum_by_update(s.update(i, s[j]), j, s[i], f);
}

/// The Fisher-Yates walk leaves the length unchanged.
pub proof fn lemma_fy_rec_len<T>(s: Seq<T>, seed: usize, i: int)
    ensures
        fy_rec(s, seed, i).0.len() == s.len(),
    decreases i,
{
    if 0 <= i < s.len() {
        let s2 = lcg_next(seed);
        let j = (lcg_output(s2) as int) % (i + 1);
        if i != 0 {
            lemma_fy_rec_len(swapped(s, i, j), s2, i - 1);
        }
    }
}

/// The shuffle leaves the length unchanged.
pub proof fn lemma_fy_len<T>(s: Seq<T>, seed: usize)
    ensures
        fy(s, seed).0.len() == s.len(),
{
    lemma_fy_rec_len(s, seed, s.len() - 1);
}

/// The Fisher-Yates walk leaves every sum over the sequence unchanged.
pub proof fn lemma_fy_rec_sum<T>(s: Seq<T>, seed: usize, i: int, f: spec_fn(T) -> int)
    ensures
        sum_by(fy_rec(s, seed, i).0, f) == sum_by(s, f),
    decreases i,
{
    if 0 <= i < s.len() {
        let s2 = lcg_next(seed);
        let j = (lcg_output(s2) as int) % (i + 1);
        lemma_sum_by_swap(s, i, j, f);
        if i != 0 {
            lemma_fy_rec_sum(swapped(s, i, j), s2, i - 1, f);
        }
    }
}

/// The shuffle leaves every sum over the sequence unchanged.
pub proof fn lemma_fy_sum<T>(s: Seq<T>, seed: usize, f: spec_fn(T) -> int)
    ensures
        sum_by(fy(s, seed).0, f) == sum_by(s, f),
{
    lemma_fy_rec_sum(s, seed, s.len() - 1, f);
}

/// Counting occurrences agrees with the multiset view of a sequence.
pub proof fn lemma_count_of_multiset<T>(s: Seq<T>, x: T)
    ensures
        s.to_multiset().count(x) == count_of(s, x),
    decreases s.len(),
{
    broadcast use vstd::seq_lib::group_to_multiset_ensures;
    broadcast use vstd::multiset::group_multiset_axioms;

    if s.len() == 0 {
        assert(s.to_multiset() =~= Multiset::<T>::empty());
    } else {
        lemma_count_of_multiset(s.drop_last(), x);
        assert(s =~= s.drop_last().push(s.last()));
        assert(s.to_multiset() =~= s.drop_last().to_multiset().insert(s.last()));
    }
}

/// The shuffle is a permutation: for every seed it leaves the multiset of
/// elements unchanged.
pub proof fn lemma_fy_multiset<T>(s: Seq<T>, seed: usize)
    ensures
        fy(s, seed).0.to_multiset() == s.to_multiset(),
{
    broadcast use vstd::multiset::group_multiset_axioms;

    let r = fy(s, seed).0;
    assert forall|x: T| r.to_multiset().count(x) == s.to_multiset().count(x) by {
        lemma_count_of_multiset(r, x);
        lemma_count_of_multiset(s, x);
        lemma_fy_sum(s, seed, eq_weight(x));
    }
    assert(r.to_multiset() =~= s.to_multiset());
}

/// A sum of non-negative weights is non-negative.
pub proof fn lemma_sum_by_nonneg<T>(s: Seq<T>, f: spec_fn(T) -> int)
    requires
        forall|e: T| #[trigger] f(e) >= 0,
    ensures
        sum_by(s, f) >= 0,
    decreases s.len(),
{
    if s.len() > 0 {
        lemma_sum_by_nonneg(s.drop_last(), f);
    }
}

/// A sum of non-negative weights is at least the weight of any one element.
pub proof fn lemma_sum_by_at_least<T>(s: Seq<T>, f: spec_fn(T) -> int, i: int)
    requires
        forall|e: T| #[trigger] f(e) >= 0,
        0 <= i < s.len(),
    ensures
        sum_by(s, f) >= f(s[i]),
    decreases s.len(),
{
    if i == s.len() - 1 {
        lemma_sum_by_nonneg(s.drop_last(), f);
    } else {
        lemma_sum_by_at_least(s.drop_last(), f, i);
    }
}

/// A sum of non-negative weights is at least the weight of any two distinct
/// elements together.
pub proof fn lemma_sum_by_pair<T>(s: Seq<T>, f: spec_fn(T) -> int, i: int, j: int)
    requires
        forall|e: T| #[trigger] f(e) >= 0,
        0 <= i < s.len(),
        0 <= j < s.len(),
        i != j,
    ensures
        sum_by(s, f) >= f(s[i]) + f(s[j]),
    decreases s.len(),
{
    if j == s.len() - 1 {
        lemma_sum_by_at_least(s.drop_last(), f, i);
    } else if i == s.len() - 1 {
        lemma_sum_by_at_least(s.drop_last(), f, j);
    } else {
        lemma_sum_by_pair(s.drop_last(), f, i, j);
    }
}

/// When every element weighs nothing the sum is nothing.
pub proof fn lemma_sum_by_zero<T>(s: Seq<T>, f: spec_fn(T) -> int)
    requires
        forall|t: int| 0 <= t < s.len() ==> #[trigger] f(s[t]) == 0,
    ensures
        sum_by(s, f) == 0,
    decreases s.len(),
{
    if s.len() > 0 {
        lemma_sum_by_zero(s.drop_last(), f);
    }
}

/// Sums distribute over concatenation.
pub proof fn lemma_sum_by_concat<T>(a: Seq<T>, b: Seq<T>, f: spec_fn(T) -> int)
    ensures
        sum_by(a + b, f) == sum_by(a, f) + sum_by(b, f),
    decreases b.len(),
{
    if b.len() == 0 {
        assert(a + b =~= a);
    } else {
        assert((a + b).drop_last() =~= a + b.drop_last());
        assert((a + b).last() == b.last());
        lemma_sum_by_concat(a, b.drop_last(), f);
    }
}

} // verus!

