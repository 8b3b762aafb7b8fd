//! The Feistel network: an invertible permutation of `[0, 2^bits)` built
//! from a round function that need not be invertible itself.
use vstd::arithmetic::power2::{lemma2_to64, pow2};
use vstd::bits::lemma_u32_shr_is_div;
use vstd::prelude::*;

use crate::pcg::{pcg_hash, pcg_hash_spec};

verus! {

/// The configuration of a Feistel permutation, as a mathematical value.
pub struct FeistelSpec {
    pub round_count: u32,
    pub seed: u32,
    pub bits: u32,
}

impl FeistelSpec {
    /// A configuration that the 32-bit arithmetic can carry.
    pub open spec fn valid(self) -> bool {
        self.bits <= 32
    }

    /// Width of the right half; the left half gets the remaining bits.
    pub open spec fn half_bits(self) -> u32 {
        (self.bits / 2) as u32
    }

    /// Width of the left half of an index, one more than `half_bits` when
    /// `bits` is odd.
    pub open spec fn left_bits(self) -> u32 {
        (self.bits - self.half_bits()) as u32
    }

    pub open spec fn half_mask(self) -> u32 {
        ((1u32 << self.half_bits()) - 1) as u32
    }

    /// Number of indices the permutation acts on.
    pub open spec fn domain_size(self) -> nat {
        pow2(self.bits as nat)
    }

    pub open spec fn in_domain(self, x: u32) -> bool {
        (x as nat) < self.domain_size()
    }

    /// Configurations on which encryption and decryption are mutually
    /// inverse bijections of the domain. With an odd width and an odd number
    /// of rounds the wider half ends on the right and overlaps the left one
    /// when the halves are joined.
    pub open spec fn invertible(self) -> bool {
        self.bits % 2 == 0 || self.round_count % 2 == 0
    }

    pub open spec fn round_func(self, x: u32) -> u32 {
        pcg_hash_spec(x ^ self.seed) & self.half_mask()
    }

    pub open spec fn split(self, index: u32) -> (u32, u32) {
        (index >> self.half_bits(), index & self.half_mask())
    }

    pub open spec fn join(self, halves: (u32, u32)) -> u32 {
        (halves.0 << self.half_bits()) | halves.1
    }

    /// One encryption round: `(left, right) <- (right, left ^ F(right))`.
    pub open spec fn encrypt_step(self, halves: (u32, u32)) -> (u32, u32) {
        (halves.1, halves.0 ^ self.round_func(halves.1))
    }

    /// One decryption round: `(left, right) <- (right ^ F(left), left)`.
    pub open spec fn decrypt_step(self, halves: (u32, u32)) -> (u32, u32) {
        (halves.1 ^ self.round_func(halves.0), halves.0)
    }

    pub open spec fn encrypt_rounds(self, halves: (u32, u32), n: nat) -> (u32, u32)
        decreases n,
    {
        if n == 0 {
            halves
        } else {
            self.encrypt_step(self.encrypt_rounds(halves, (n - 1) as nat))
        }
    }

    pub open spec fn decrypt_rounds(self, halves: (u32, u32), n: nat) -> (u32, u32)
        decreases n,
    {
        if n == 0 {
            halves
        } else {
            self.decrypt_step(self.decrypt_rounds(halves, (n - 1) as nat))
        }
    }

    /// Split, run `round_count` encryption rounds, join.
    pub open spec fn encrypt(self, index: u32) -> u32 {
        self.join(self.encrypt_rounds(self.split(index), self.round_count as nat))
    }

    /// Split, run `round_count` decryption rounds, join.
    pub open spec fn decrypt(self, index: u32) -> u32 {
        self.join(self.decrypt_rounds(self.split(index), self.round_count as nat))
    }
}

/// Both halves of `halves` are narrower than `a` and `b` bits respectively.
pub open spec fn fits(halves: (u32, u32), a: u32, b: u32) -> bool {
    &&& halves.0 >> a == 0
    &&& halves.1 >> b == 0
}

proof fn lemma_xor_cancel(a: u32, b: u32)
    by (bit_vector)
    ensures
        (a ^ b) ^ b == a,
{
}

proof fn lemma_xor_fits(a: u32, b: u32, k: u32)
    by (bit_vector)
    requires
        a >> k == 0,
        b >> k == 0,
    ensures
        (a ^ b) >> k == 0,
{
}

proof fn lemma_fits_wider(x: u32, k: u32, j: u32)
    by (bit_vector)
    requires
        x >> k == 0,
        k <= j,
    ensures
        x >> j == 0,
{
}

proof fn lemma_mask_fits(x: u32, h: u32)
    by (bit_vector)
    requires
        h <= 16,
    ensures
        (x & (((1u32 << h) - 1) as u32)) >> h == 0,
{
}

proof fn lemma_split_fits(i: u32, h: u32, a: u32)
    by (bit_vector)
    requires
        h <= 16,
        h <= a <= h + 1,
        h + a <= 32,
        i >> (h + a) == 0,
    ensures
        (i >> h) >> a == 0,
        (i & (((1u32 << h) - 1) as u32)) >> h == 0,
{
}

proof fn lemma_join_split(i: u32, h: u32)
    by (bit_vector)
    requires
        h <= 16,
    ensures
        ((i >> h) << h) | (i & (((1u32 << h) - 1) as u32)) == i,
{
}

proof fn lemma_split_join(l: u32, r: u32, h: u32, a: u32)
    by (bit_vector)
    requires
        h <= 16,
        h <= a <= h + 1,
        h + a <= 32,
        l >> a == 0,
        r >> h == 0,
    ensures
        ((l << h) | r) >> h == l,
        ((l << h) | r) & (((1u32 << h) - 1) as u32) == r,
{
}

proof fn lemma_join_fits(l: u32, r: u32, h: u32, a: u32)
    by (bit_vector)
    requires
        h <= 16,
        h <= a <= h + 1,
        h + a <= 32,
        l >> a == 0,
        r >> a == 0,
    ensures
        ((l << h) | r) >> (h + a) == 0,
{
}

/// For widths the 32-bit arithmetic carries, `x` lies below `2^k` exactly
/// when shifting it right by `k` leaves nothing.
proof fn lemma_below_pow2(x: u32, k: u32)
    requires
        k <= 32,
    ensures
        (x as nat) < pow2(k as nat) <==> x >> k == 0,
{
    if k == 32 {
        lemma2_to64();
        assert(x >> 32u32 == 0) by (bit_vector);
    } else {
        lemma_u32_shr_is_div(x, k);
        vstd::arithmetic::power2::lemma_pow2_pos(k as nat);
        if (x as nat) >= pow2(k as nat) {
            vstd::arithmetic::div_mod::lemma_div_is_ordered(
                pow2(k as nat) as int,
                x as int,
                pow2(k as nat) as int,
            );
            vstd::arithmetic::div_mod::lemma_div_basics(pow2(k as nat) as int);
        } else {
            vstd::arithmetic::div_mod::lemma_basic_div(x as int, pow2(k as nat) as int);
        }
    }
}

impl FeistelSpec {
    /// A decryption round undoes an encryption round, and the other way round.
    pub proof fn lemma_step_inverse(self, halves: (u32, u32))
        ensures
            self.decrypt_step(self.encrypt_step(halves)) == halves,
            self.encrypt_step(self.decrypt_step(halves)) == halves,
    {
        lemma_xor_cancel(halves.0, self.round_func(halves.1));
        lemma_xor_cancel(halves.1, self.round_func(halves.0));
    }

    /// The rounds may be peeled from the inside as well as from the outside.
    pub proof fn lemma_rounds_peel_first(self, halves: (u32, u32), n: nat)
        ensures
            self.encrypt_rounds(halves, n + 1) == self.encrypt_rounds(
                self.encrypt_step(halves),
                n,
            ),
            self.decrypt_rounds(halves, n + 1) == self.decrypt_rounds(
                self.decrypt_step(halves),
                n,
            ),
        decreases n,
    {
        let e = self.encrypt_step(halves);
        let d = self.decrypt_step(halves);
        assert(self.encrypt_rounds(halves, 0) == halves);
        assert(self.decrypt_rounds(halves, 0) == halves);
        if n > 0 {
            let m = (n - 1) as nat;
            self.lemma_rounds_peel_first(halves, m);
            assert(self.encrypt_rounds(halves, n + 1) == self.encrypt_step(
                self.encrypt_rounds(halves, n),
            ));
            assert(self.encrypt_rounds(e, n) == self.encrypt_step(self.encrypt_rounds(e, m)));
            assert(self.decrypt_rounds(halves, n + 1) == self.decrypt_step(
                self.decrypt_rounds(halves, n),
            ));
            assert(self.decrypt_rounds(d, n) == self.decrypt_step(self.decrypt_rounds(d, m)));
        } else {
            assert(self.encrypt_rounds(halves, 1) == e);
            assert(self.decrypt_rounds(halves, 1) == d);
        }
    }

    /// `n` decryption rounds undo `n` encryption rounds, and the other way
    /// round, whatever the round function.
    pub proof fn lemma_rounds_inverse(self, halves: (u32, u32), n: nat)
        ensures
            self.decrypt_rounds(self.encrypt_rounds(halves, n), n) == halves,
            self.encrypt_rounds(self.decrypt_rounds(halves, n), n) == halves,
        decreases n,
    {
        if n > 0 {
            let m = (n - 1) as nat;
            self.lemma_rounds_inverse(halves, m);
            let e = self.encrypt_rounds(halves, m);
            let d = self.decrypt_rounds(halves, m);
            self.lemma_rounds_peel_first(self.encrypt_step(e), m);
            self.lemma_rounds_peel_first(self.decrypt_step(d), m);
            self.lemma_step_inverse(e);
            self.lemma_step_inverse(d);
        }
    }

    /// The round function's output fits in the right half.
    pub proof fn lemma_round_func_fits(self, x: u32)
        requires
            self.valid(),
        ensures
            self.round_func(x) >> self.half_bits() == 0,
    {
        lemma_mask_fits(pcg_hash_spec(x ^ self.seed), self.half_bits());
    }

    /// Starting from halves as wide as `split` leaves them, the halves trade
    /// widths at every round.
    pub proof fn lemma_rounds_fit(self, halves: (u32, u32), n: nat)
        requires
            self.valid(),
            fits(halves, self.left_bits(), self.half_bits()),
        ensures
            n % 2 == 0 ==> fits(
                self.encrypt_rounds(halves, n),
                self.left_bits(),
                self.half_bits(),
            ),
            n % 2 == 1 ==> fits(
                self.encrypt_rounds(halves, n),
                self.half_bits(),
                self.left_bits(),
            ),
            n % 2 == 0 ==> fits(
                self.decrypt_rounds(halves, n),
                self.left_bits(),
                self.half_bits(),
            ),
            n % 2 == 1 ==> fits(
                self.decrypt_rounds(halves, n),
                self.half_bits(),
                self.left_bits(),
            ),
        decreases n,
    {
        if n > 0 {
            let m = (n - 1) as nat;
            let h = self.half_bits();
            let a = self.left_bits();
            self.lemma_rounds_fit(halves, m);
            let e = self.encrypt_rounds(halves, m);
            let d = self.decrypt_rounds(halves, m);
            self.lemma_round_func_fits(e.1);
            self.lemma_round_func_fits(d.0);
            lemma_fits_wider(self.round_func(e.1), h, a);
            lemma_fits_wider(self.round_func(d.0), h, a);
            if m % 2 == 0 {
                lemma_xor_fits(e.0, self.round_func(e.1), a);
                lemma_xor_fits(d.1, self.round_func(d.0), h);
            } else {
                lemma_xor_fits(e.0, self.round_func(e.1), h);
                lemma_xor_fits(d.1, self.round_func(d.0), a);
            }
        }
    }

    proof fn lemma_split_in_domain(self, index: u32)
        requires
            self.valid(),
            self.in_domain(index),
        ensures
            fits(self.split(index), self.left_bits(), self.half_bits()),
    {
        lemma_below_pow2(index, self.bits);
        lemma_split_fits(index, self.half_bits(), self.left_bits());
    }

    /// Joining halves that both fit in the wider half gives an index of the
    /// domain.
    proof fn lemma_join_in_domain(self, halves: (u32, u32))
        requires
            self.valid(),
            fits(halves, self.left_bits(), self.left_bits()),
        ensures
            self.in_domain(self.join(halves)),
    {
        lemma_join_fits(halves.0, halves.1, self.half_bits(), self.left_bits());
        lemma_below_pow2(self.join(halves), self.bits);
    }

    /// Encryption and decryption map the domain into itself.
    pub proof fn lemma_stays_in_domain(self, index: u32)
        requires
            self.valid(),
            self.in_domain(index),
        ensures
            self.in_domain(self.encrypt(index)),
            self.in_domain(self.decrypt(index)),
    {
        let n = self.round_count as nat;
        let h = self.half_bits();
        let a = self.left_bits();
        self.lemma_split_in_domain(index);
        self.lemma_rounds_fit(self.split(index), n);
        let e = self.encrypt_rounds(self.split(index), n);
        let d = self.decrypt_rounds(self.split(index), n);
        if n % 2 == 0 {
            lemma_fits_wider(e.1, h, a);
            lemma_fits_wider(d.1, h, a);
        } else {
            lemma_fits_wider(e.0, h, a);
            lemma_fits_wider(d.0, h, a);
        }
        self.lemma_join_in_domain(e);
        self.lemma_join_in_domain(d);
    }

    /// Splitting undoes joining for halves that trade widths as the rounds
    /// leave them, when the configuration is invertible.
    proof fn lemma_split_join_rounds(self, halves: (u32, u32), n: nat)
        requires
            self.valid(),
            self.invertible(),
            n == self.round_count,
            n % 2 == 0 ==> fits(halves, self.left_bits(), self.half_bits()),
            n % 2 == 1 ==> fits(halves, self.half_bits(), self.left_bits()),
        ensures
            self.split(self.join(halves)) == halves,
    {
        let h = self.half_bits();
        let a = self.left_bits();
        if n % 2 == 1 {
            assert(a == h);
        }
        lemma_split_join(halves.0, halves.1, h, a);
    }

    /// Decryption undoes encryption on the domain, and the other way round.
    pub proof fn lemma_inverse(self, index: u32)
        requires
            self.valid(),
            self.invertible(),
            self.in_domain(index),
        ensures
            self.decrypt(self.encrypt(index)) == index,
            self.encrypt(self.decrypt(index)) == index,
    {
        let n = self.round_count as nat;
        let p = self.split(index);
        self.lemma_split_in_domain(index);
        self.lemma_rounds_fit(p, n);
        self.lemma_split_join_rounds(self.encrypt_rounds(p, n), n);
        self.lemma_split_join_rounds(self.decrypt_rounds(p, n), n);
        self.lemma_rounds_inverse(p, n);
        lemma_join_split(index, self.half_bits());
    }
}

/// An executable Feistel permutation.
#[derive(Debug, Clone, Copy)]
pub struct Feistel {
    round_count: u32,
    bits: u32,
    half_bits: u32,
    half_mask: u32,
    seed: u32,
}

impl View for Feistel {
    type V = FeistelSpec;

    closed spec fn view(&self) -> FeistelSpec {
        FeistelSpec { round_count: self.round_count, seed: self.seed, bits: self.bits }
    }
}

impl Feistel {
    #[verifier::type_invariant]
    spec fn inv(self) -> bool {
        &&& self@.valid()
        &&& self.half_bits == self@.half_bits()
        &&& self.half_mask == self@.half_mask()
    }

    pub fn new(round_count: u32, seed: u32, bits: u32) -> (r: Self)
        requires
            bits <= 32,
        ensures
            r@ == (FeistelSpec { round_count, seed, bits }),
    {
        let half_bits = bits / 2;
        assert(half_bits <= 16 ==> (1u32 << half_bits) >= 1) by (bit_vector);
        let half_mask = (1u32 << half_bits) - 1;
        Feistel { round_count, bits, half_bits, half_mask, seed }
    }

    fn round_func(&self, x: u32) -> (r: u32)
        ensures
            r == self@.round_func(x),
    {
        proof {
            use_type_invariant(self);
        }
        pcg_hash(x ^ self.seed) & self.half_mask
    }

    pub fn encrypt(&self, index: u32) -> (r: u32)
        ensures
            r == self@.encrypt(index),
    {
        proof {
            use_type_invariant(self);
        }
        let mut left = index >> self.half_bits;
        let mut right = index & self.half_mask;
        for i in 0..self.round_count
            invariant
                (left, right) == self@.encrypt_rounds(self@.split(index), i as nat),
        {
            let new_left = right;
            let new_right = left ^ self.round_func(right);
            left = new_left;
            right = new_right;
        }
        (left << self.half_bits) | right
    }

    pub fn decrypt(&self, index: u32) -> (r: u32)
        ensures
            r == self@.decrypt(index),
    {
        proof {
            use_type_invariant(self);
        }
        let mut left = index >> self.half_bits;
        let mut right = index & self.half_mask;
        for i in 0..self.round_count
            invariant
                (left, right) == self@.decrypt_rounds(self@.split(index), i as nat),
        {
            let new_right = left;
            let new_left = right ^ self.round_func(left);
            left = new_left;
            right = new_right;
        }
        (left << self.half_bits) | right
    }
}

} // verus!
