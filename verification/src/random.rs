//! The deterministic pseudo-random stream that drives seeded algorithms: a
//! 64-bit linear congruential generator and the Fisher–Yates shuffle it feeds.
use vstd::prelude::*;

verus! {

/// Multiplier of the generator.
pub const LCG_MULTIPLIER: u64 = 6_364_136_223_846_793_005u64;

/// Increment of the generator.
pub const LCG_INCREMENT: u64 = 1_442_695_040_888_963_407u64;

/// One step of the generator: `seed * multiplier + increment`, wrapping.
pub open spec fn lcg_next(seed: u64) -> u64 {
    vstd::wrapping::u64_specs::wrapping_add(
        vstd::wrapping::u64_specs::wrapping_mul(seed, LCG_MULTIPLIER),
        LCG_INCREMENT,
    )
}

/// Advance the generator state and return the new state.
pub fn next_random(seed: &mut u64) -> (r: u64)
    ensures
        *final(seed) == lcg_next(*old(seed)),
        r == *final(seed),
{
    *seed = seed.wrapping_mul(LCG_MULTIPLIER).wrapping_add(LCG_INCREMENT);
    *seed
}

/// The sequence with the values at `i` and `j` exchanged.
pub open spec fn swapped(s: Seq<usize>, i: int, j: int) -> Seq<usize> {
    s.update(i, s[j]).update(j, s[i])
}

/// Fisher–Yates from position `index` down to position 1: position `index`
/// is exchanged with position `r % (index + 1)`, where `r` is the next value
/// of the generator. Gives the shuffled sequence and the final generator state.
pub open spec fn fisher_yates(s: Seq<usize>, index: int, rng: u64) -> (Seq<usize>, u64)
    decreases index,
{
    if index <= 0 {
        (s, rng)
    } else {
        let r = lcg_next(rng);
        let other = ((r as usize) as int) % (index + 1);
        fisher_yates(swapped(s, index, other), index - 1, r)
    }
}

/// Exchanging two values keeps the multiset of values.
proof fn lemma_swapped_multiset(s: Seq<usize>, i: int, j: int)
    requires
        0 <= i < s.len(),
        0 <= j < s.len(),
    ensures
        swapped(s, i, j).to_multiset() == s.to_multiset(),
        swapped(s, i, j).len() == s.len(),
{
    broadcast use vstd::seq_lib::to_multiset_update, vstd::multiset::group_multiset_axioms;

    let s1 = s.update(i, s[j]);
    assert(s1[j] == s[j]);
    assert(s1.to_multiset() == s.to_multiset().insert(s[j]).remove(s[i]));
    assert(swapped(s, i, j).to_multiset() == s1.to_multiset().insert(s[i]).remove(s[j]));
    let m = s.to_multiset();
    assert(m.count(s[i]) > 0) by {
        broadcast use vstd::seq_lib::to_multiset_contains;
        assert(s.contains(s[i]));
    }
    let m1 = m.insert(s[j]).remove(s[i]);
    assert(m1.count(s[j]) > 0) by {
        if s[i] != s[j] {
            assert(m1.count(s[j]) == m.insert(s[j]).count(s[j]));
        } else {
            assert(m.insert(s[j]).count(s[j]) == m.count(s[j]) + 1);
        }
    }
    assert forall|x: usize| #[trigger] m1.insert(s[i]).remove(s[j]).count(x) == m.count(x) by {
        assert(m.insert(s[j]).count(x) == m.count(x) + (if x == s[j] { 1int } else { 0int }));
    }
    assert(m1.insert(s[i]).remove(s[j]) =~= m);
}

/// A Fisher–Yates shuffle permutes the sequence.
pub proof fn lemma_fisher_yates_permutes(s: Seq<usize>, index: int, rng: u64)
    requires
        index < s.len(),
    ensures
        fisher_yates(s, index, rng).0.to_multiset() == s.to_multiset(),
        fisher_yates(s, index, rng).0.len() == s.len(),
    decreases index,
{
    if index > 0 {
        let r = lcg_next(rng);
        let other = ((r as usize) as int) % (index + 1);
        lemma_swapped_multiset(s, index, other);
        lemma_fisher_yates_permutes(swapped(s, index, other), index - 1, r);
    }
}

/// Shuffle in place with the seeded Fisher–Yates procedure.
pub fn shuffle(values: &mut Vec<usize>, seed: &mut u64)
    ensures
        (final(values)@, *final(seed)) == fisher_yates(old(values)@, old(values)@.len() - 1, *old(seed)),
        final(values)@.to_multiset() == old(values)@.to_multiset(),
{
    let ghost target = fisher_yates(values@, values@.len() - 1, *seed);
    proof {
        if values@.len() > 0 {
            lemma_fisher_yates_permutes(values@, values@.len() - 1, *seed);
        }
    }
    let mut index = values.len();
    while index > 1
        invariant
            index <= values.len(),
            fisher_yates(values@, index - 1, *seed) == target,
        decreases index,
    {
        index = index - 1;
        let r = next_random(seed);
        let other = (r as usize) % (index + 1);
        let a = values[index];
        let b = values[other];
        values.set(index, b);
        values.set(other, a);
    }
}

} // verus!
