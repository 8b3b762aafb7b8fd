//! Shuffling of dense indices: a Feistel permutation of `[0, 2^bits)` and
//! its inverse.
use vstd::prelude::*;

use crate::feistel::{Feistel, FeistelSpec};

verus! {

/// Maps indices to shuffled positions and back, without any table.
#[derive(Debug, Clone, Copy)]
pub struct ShuffleIter {
    feistel: Feistel,
}

impl View for ShuffleIter {
    type V = FeistelSpec;

    closed spec fn view(&self) -> FeistelSpec {
        self.feistel@
    }
}

impl ShuffleIter {
    /// A shuffle of `[0, 2^bits)` with `round_count` Feistel rounds keyed by
    /// `seed`.
    pub fn new(round_count: u32, seed: u32, bits: u32) -> (r: Self)
        requires
            bits <= 32,
        ensures
            r@ == (FeistelSpec { round_count, seed, bits }),
    {
        ShuffleIter { feistel: Feistel::new(round_count, seed, bits) }
    }

    /// The shuffled position of `index`.
    pub fn to_shuffled_index(&self, index: u32) -> (r: u32)
        ensures
            r == self@.encrypt(index),
    {
        self.feistel.encrypt(index)
    }

    /// The index whose shuffled position is `index`.
    pub fn from_shuffled_index(&self, index: u32) -> (r: u32)
        ensures
            r == self@.decrypt(index),
    {
        self.feistel.decrypt(index)
    }
}

/// Shuffling is a bijection of the domain: it maps the domain into itself,
/// unshuffling undoes it and it undoes unshuffling, so no two indices share
/// a position and every position is reached. This holds whenever the width
/// is even or the number of rounds is even.
pub proof fn lemma_shuffle_is_bijection(cfg: FeistelSpec)
    requires
        cfg.valid(),
        cfg.invertible(),
    ensures
        forall|i: u32|
            cfg.in_domain(i) ==> {
                &&& cfg.in_domain(#[trigger] cfg.encrypt(i))
                &&& cfg.decrypt(cfg.encrypt(i)) == i
            },
        forall|j: u32|
            cfg.in_domain(j) ==> {
                &&& cfg.in_domain(#[trigger] cfg.decrypt(j))
                &&& cfg.encrypt(cfg.decrypt(j)) == j
            },
        forall|i1: u32, i2: u32|
            cfg.in_domain(i1) && cfg.in_domain(i2) && #[trigger] cfg.encrypt(i1)
                == #[trigger] cfg.encrypt(i2) ==> i1 == i2,
        forall|j: u32| cfg.in_domain(j) ==> exists|i: u32| cfg.in_domain(i) && #[trigger] cfg.encrypt(i) == j,
{
    assert forall|i: u32| cfg.in_domain(i) implies {
        &&& cfg.in_domain(#[trigger] cfg.encrypt(i))
        &&& cfg.decrypt(cfg.encrypt(i)) == i
    } by {
        cfg.lemma_stays_in_domain(i);
        cfg.lemma_inverse(i);
    }
    assert forall|j: u32| cfg.in_domain(j) implies {
        &&& cfg.in_domain(#[trigger] cfg.decrypt(j))
        &&& cfg.encrypt(cfg.decrypt(j)) == j
    } by {
        cfg.lemma_stays_in_domain(j);
        cfg.lemma_inverse(j);
    }
    assert forall|j: u32| cfg.in_domain(j) implies exists|i: u32|
        cfg.in_domain(i) && #[trigger] cfg.encrypt(i) == j by {
        cfg.lemma_stays_in_domain(j);
        cfg.lemma_inverse(j);
        assert(cfg.encrypt(cfg.decrypt(j)) == j);
    }
}

/// Two shuffles built from the same round count, seed and width agree on
/// every index, in both directions.
pub proof fn lemma_shuffle_is_deterministic(
    a: ShuffleIter,
    b: ShuffleIter,
    round_count: u32,
    seed: u32,
    bits: u32,
)
    requires
        a@ == (FeistelSpec { round_count, seed, bits }),
        b@ == (FeistelSpec { round_count, seed, bits }),
    ensures
        forall|i: u32| #[trigger] a@.encrypt(i) == b@.encrypt(i) && a@.decrypt(i) == b@.decrypt(i),
{
}

} // verus!
