//! Grouping of dense indices: the shuffled domain is cut into blocks of
//! `group_size` consecutive positions, and the indices whose positions share
//! a block form a group.
use vstd::arithmetic::div_mod::{
    lemma_add_mod_noop,
    lemma_fundamental_div_mod,
    lemma_fundamental_div_mod_converse,
};
use vstd::arithmetic::power2::{
    lemma2_to64,
    lemma_pow2_adds,
    lemma_pow2_strictly_increases,
    pow2,
};
use vstd::prelude::*;

use crate::feistel::{Feistel, FeistelSpec};

verus! {

/// The configuration of a grouping, as a mathematical value.
pub struct GroupSpec {
    pub perm: FeistelSpec,
    pub group_size: u32,
}

impl GroupSpec {
    /// Groups are non-empty and tile the domain exactly.
    pub open spec fn valid(self) -> bool {
        &&& self.perm.valid()
        &&& self.group_size > 0
        &&& self.perm.domain_size() % (self.group_size as nat) == 0
    }

    /// The position `offset` places after `x`, cyclically, inside the block
    /// of `group_size` positions that holds `x`.
    pub open spec fn involution(self, x: u32, offset: u32) -> u32 {
        let g = self.group_size as int;
        (g * (x as int / g) + (x + offset) % g) as u32
    }

    /// The member of the group of `index` at cyclic offset `offset`.
    pub open spec fn member(self, index: u32, offset: u32) -> u32 {
        self.perm.decrypt(self.involution(self.perm.encrypt(index), offset))
    }

    /// The group of `index`, ordered by offset, starting with `index` itself.
    pub open spec fn group(self, index: u32) -> Seq<u32> {
        Seq::new(self.group_size as nat, |k: int| self.member(index, k as u32))
    }
}

/// Assigns indices to pseudo-random groups of a fixed size.
#[derive(Debug, Clone, Copy)]
pub struct GroupIter {
    feistel: Feistel,
    group_size: u32,
}

impl View for GroupIter {
    type V = GroupSpec;

    closed spec fn view(&self) -> GroupSpec {
        GroupSpec { perm: self.feistel@, group_size: self.group_size }
    }
}

/// The block of `gs` consecutive values that holds `x` ends at or below `n`
/// when `gs` divides `n`.
proof fn lemma_block_below(x: int, gs: int, n: int)
    requires
        0 <= x < n,
        gs > 0,
        n % gs == 0,
    ensures
        gs * (x / gs) <= x,
        gs * (x / gs) + gs <= n,
{
    lemma_fundamental_div_mod(x, gs);
    lemma_fundamental_div_mod(n, gs);
    let q = x / gs;
    let c = n / gs;
    assert(gs * q + gs <= gs * c) by (nonlinear_arith)
        requires
            gs > 0,
            x == gs * q + x % gs,
            0 <= x % gs,
            x < gs * c,
    ;
}

/// The group size divides `2^32` as well as the domain size.
proof fn lemma_group_size_divides_word(g: GroupSpec)
    requires
        g.valid(),
    ensures
        0x1_0000_0000int % (g.group_size as int) == 0,
{
    let gs = g.group_size as int;
    let bits = g.perm.bits as nat;
    lemma_pow2_adds(bits, (32 - bits) as nat);
    lemma2_to64();
    let p = pow2(bits) as int;
    let r = pow2((32 - bits) as nat) as int;
    let k = p / gs;
    lemma_fundamental_div_mod(p, gs);
    assert(0x1_0000_0000 == (k * r) * gs) by (nonlinear_arith)
        requires
            0x1_0000_0000 == p * r,
            p == gs * k,
    ;
    lemma_fundamental_div_mod_converse(0x1_0000_0000, gs, k * r, 0);
}

/// What the involution does to a position `y` of the domain: it stays in
/// the block `y / group_size`, at the slot `(y + k) % group_size`.
proof fn lemma_involution(g: GroupSpec, y: u32, k: int)
    requires
        g.valid(),
        g.perm.in_domain(y),
        0 <= k < g.group_size,
    ensures
        g.involution(y, k as u32) as int == (g.group_size as int) * (y as int / (g.group_size as int))
            + (y + k) % (g.group_size as int),
        g.perm.in_domain(g.involution(y, k as u32)),
        g.involution(y, k as u32) as int / (g.group_size as int) == y as int / (g.group_size as int),
{
    let gs = g.group_size as int;
    let n = g.perm.domain_size() as int;
    lemma_block_below(y as int, gs, n);
    let t = (y + k) % gs;
    let v = gs * (y as int / gs) + t;
    assert((k as u32) as int == k);
    if g.perm.bits < 32 {
        lemma_pow2_strictly_increases(g.perm.bits as nat, 32);
    }
    lemma2_to64();
    assert((v as u32) as int == v);
    assert(v == (y as int / gs) * gs + t) by (nonlinear_arith)
        requires
            v == gs * (y as int / gs) + t,
    ;
    lemma_fundamental_div_mod_converse(v, gs, y as int / gs, t);
}

/// The index whose shuffled position is slot `t` of block `q`.
spec fn block_slot(g: GroupSpec, q: int, t: int) -> u32 {
    g.perm.decrypt(((g.group_size as int) * q + t) as u32)
}

/// The set of indices whose shuffled positions fill the block `q`.
spec fn block_members(g: GroupSpec, q: int) -> Set<u32> {
    Set::new(|x: u32| exists|t: int| 0 <= t < g.group_size && x == #[trigger] block_slot(g, q, t))
}

/// The group of `index` holds exactly the indices that share the block of
/// its shuffled position.
proof fn lemma_group_is_block(g: GroupSpec, index: u32)
    requires
        g.valid(),
        g.perm.in_domain(index),
    ensures
        g.group(index).to_set() == block_members(
            g,
            g.perm.encrypt(index) as int / (g.group_size as int),
        ),
{
    let gs = g.group_size as int;
    let e = g.perm.encrypt(index);
    let q = e as int / gs;
    let grp = g.group(index);
    g.perm.lemma_stays_in_domain(index);
    assert forall|x: u32| grp.to_set().contains(x) implies block_members(g, q).contains(x) by {
        let k = choose|k: int| 0 <= k < grp.len() && grp[k] == x;
        lemma_involution(g, e, k);
        assert(x == block_slot(g, q, (e + k) % gs));
    }
    assert forall|x: u32| block_members(g, q).contains(x) implies grp.to_set().contains(x) by {
        let t = choose|t: int| 0 <= t < gs && x == #[trigger] block_slot(g, q, t);
        lemma_fundamental_div_mod(e as int, gs);
        let r0 = e as int % gs;
        let k = if t >= r0 {
            t - r0
        } else {
            t - r0 + gs
        };
        if t >= r0 {
            assert(e + k == q * gs + t) by (nonlinear_arith)
                requires
                    e == gs * q + r0,
                    k == t - r0,
            ;
            lemma_fundamental_div_mod_converse(e + k, gs, q, t);
        } else {
            assert(e + k == (q + 1) * gs + t) by (nonlinear_arith)
                requires
                    e == gs * q + r0,
                    k == t - r0 + gs,
            ;
            lemma_fundamental_div_mod_converse(e + k, gs, q + 1, t);
        }
        lemma_involution(g, e, k);
        assert(grp[k] == x);
    }
    assert(grp.to_set() =~= block_members(g, q));
}

/// Every index is the member at offset zero of its own group, whenever the
/// width is even or the number of rounds is even.
pub proof fn lemma_member_zero_is_self(g: GroupSpec, index: u32)
    requires
        g.valid(),
        g.perm.invertible(),
        g.perm.in_domain(index),
    ensures
        g.member(index, 0) == index,
{
    let e = g.perm.encrypt(index);
    g.perm.lemma_stays_in_domain(index);
    lemma_fundamental_div_mod(e as int, g.group_size as int);
    assert(g.involution(e, 0) == e);
    g.perm.lemma_inverse(index);
}

/// A group holds `group_size` distinct indices of the domain, and the group
/// of each of them is the same set, whenever the width is even or the number
/// of rounds is even.
pub proof fn lemma_group_closure(g: GroupSpec, index: u32)
    requires
        g.valid(),
        g.perm.invertible(),
        g.perm.in_domain(index),
    ensures
        g.group(index).len() == g.group_size,
        g.group(index).no_duplicates(),
        forall|k: int| 0 <= k < g.group_size ==> g.perm.in_domain(#[trigger] g.group(index)[k]),
        forall|k: int|
            0 <= k < g.group_size ==> #[trigger] g.group(g.group(index)[k]).to_set() == g.group(
                index,
            ).to_set(),
{
    let gs = g.group_size as int;
    let e = g.perm.encrypt(index);
    let q = e as int / gs;
    let grp = g.group(index);
    g.perm.lemma_stays_in_domain(index);
    lemma_group_is_block(g, index);
    assert forall|k: int| 0 <= k < gs implies {
        &&& g.perm.in_domain(#[trigger] grp[k])
        &&& g.perm.encrypt(grp[k]) == g.involution(e, k as u32)
    } by {
        lemma_involution(g, e, k);
        g.perm.lemma_stays_in_domain(g.involution(e, k as u32));
        g.perm.lemma_inverse(g.involution(e, k as u32));
    }
    assert forall|i: int, j: int| 0 <= i < grp.len() && 0 <= j < grp.len() && i != j implies grp[i]
        != grp[j] by {
        lemma_involution(g, e, i);
        lemma_involution(g, e, j);
        lemma_fundamental_div_mod(e + i, gs);
        lemma_fundamental_div_mod(e + j, gs);
        if grp[i] == grp[j] {
            let a = (e + i) / gs;
            let b = (e + j) / gs;
            assert(i - j == gs * (a - b)) by (nonlinear_arith)
                requires
                    e + i == gs * a + (e + i) % gs,
                    e + j == gs * b + (e + j) % gs,
                    (e + i) % gs == (e + j) % gs,
            ;
            assert(false) by (nonlinear_arith)
                requires
                    i - j == gs * (a - b),
                    i != j,
                    0 <= i < gs,
                    0 <= j < gs,
            ;
        }
    }
    assert forall|k: int| 0 <= k < gs implies #[trigger] g.group(grp[k]).to_set() == grp.to_set() by {
        lemma_involution(g, e, k);
        lemma_group_is_block(g, grp[k]);
    }
}

impl GroupIter {
    #[verifier::type_invariant]
    spec fn inv(self) -> bool {
        self@.valid()
    }

    /// Groups of `group_size` over `[0, 2^bits)`, shuffled by `round_count`
    /// Feistel rounds keyed by `seed`.
    pub fn new(group_size: u32, round_count: u32, seed: u32, bits: u32) -> (r: Self)
        requires
            bits <= 32,
            group_size > 0,
            pow2(bits as nat) % (group_size as nat) == 0,
        ensures
            r@ == (GroupSpec { perm: FeistelSpec { round_count, seed, bits }, group_size }),
    {
        GroupIter { feistel: Feistel::new(round_count, seed, bits), group_size }
    }

    /// The member of the group of `index` at cyclic offset `member`.
    pub fn get_member(&self, index: u32, member: u32) -> (r: u32)
        ensures
            r == self@.member(index, member),
    {
        let index = self.involution(self.feistel.encrypt(index), member);
        self.feistel.decrypt(index)
    }

    /// Replaces the contents of `members` with the group of `index`.
    pub fn get_group(&self, index: u32, members: &mut Vec<u32>)
        ensures
            final(members)@ == self@.group(index),
    {
        let permuted = self.feistel.encrypt(index);
        members.clear();
        for i in 0..self.group_size
            invariant
                permuted == self@.perm.encrypt(index),
                members@ == self@.group(index).take(i as int),
        {
            members.push(self.feistel.decrypt(self.involution(permuted, i)));
            assert(members@ == self@.group(index).take(i + 1));
        }
        assert(members@ == self@.group(index));
    }

    fn involution(&self, x: u32, offset: u32) -> (r: u32)
        ensures
            r == self@.involution(x, offset),
    {
        proof {
            use_type_invariant(self);
            lemma_group_size_divides_word(self@);
            lemma_block_below(x as int, self.group_size as int, 0x1_0000_0000);
            lemma_add_mod_noop(x as int, offset as int, self.group_size as int);
        }
        let g = self.group_size;
        let base = g * (x / g);
        let turned = ((x % g) as u64 + (offset % g) as u64) % (g as u64);
        base + turned as u32
    }
}

} // verus!
