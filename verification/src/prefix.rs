//! Bit-string prefixes identifying contiguous segments of the address space.
//!
//! An address is a `u64`.  A prefix of length `len` with value `bits` covers
//! exactly the addresses whose topmost `len` bits equal `bits`; the root
//! prefix (length 0) covers the whole space.  Splitting a prefix yields its
//! two one-bit-longer children, which partition it exactly.

use vstd::arithmetic::div_mod::{
    lemma_basic_div, lemma_div_by_multiple, lemma_div_denominator, lemma_fundamental_div_mod,
    lemma_mod_division_less_than_divisor,
};
use vstd::arithmetic::mul::lemma_mul_inequality;
use vstd::arithmetic::power2::{
    lemma2_to64, lemma2_to64_rest, lemma_pow2_adds, lemma_pow2_pos, pow2,
};
use vstd::bits::lemma_u64_shr_is_div;
use vstd::prelude::*;

verus! {

/// One contiguous segment of the address space: the addresses whose topmost
/// `len` bits equal `bits`.
#[derive(Clone, Copy, PartialEq, Eq, Structural, Debug)]
pub struct Prefix {
    /// The prefix value, right-aligned: `bits < 2^len`.
    pub bits: u64,
    /// The number of leading address bits that `bits` constrains.
    pub len: u64,
}

impl Prefix {
    /// A prefix value is meaningful only when its value fits in its length.
    pub open spec fn wf(self) -> bool {
        self.len <= 64 && (self.bits as nat) < pow2(self.len as nat)
    }

    /// The membership test, as a mathematical statement: `addr`'s topmost
    /// `len` bits equal `bits`.
    pub open spec fn covers(self, addr: u64) -> bool {
        addr as nat / pow2((64 - self.len) as nat) == self.bits as nat
    }

    /// `self`'s bit string is a (possibly empty, possibly full) leading part
    /// of `other`'s.
    pub open spec fn is_ancestor_of(self, other: Prefix) -> bool {
        self.len <= other.len && other.bits as nat / pow2((other.len - self.len) as nat)
            == self.bits as nat
    }

    /// `self`'s bit string strictly extends `other`'s.
    pub open spec fn is_strict_descendant_of(self, other: Prefix) -> bool {
        other.is_ancestor_of(self) && other.len < self.len
    }

    /// The child obtained by appending one bit.
    pub open spec fn spec_child(self, right: bool) -> Prefix {
        Prefix {
            bits: (2 * self.bits + if right { 1int } else { 0int }) as u64,
            len: (self.len + 1) as u64,
        }
    }

    /// The prefix with the last bit removed.
    pub open spec fn spec_parent(self) -> Prefix {
        Prefix { bits: self.bits / 2, len: (self.len - 1) as u64 }
    }

    /// The numerically smallest address this prefix covers.
    pub open spec fn base_addr(self) -> u64 {
        (self.bits as nat * pow2((64 - self.len) as nat)) as u64
    }

    /// The prefix of the whole address space.
    pub fn root() -> (r: Prefix)
        ensures
            r.wf(),
            r.len == 0,
            r.bits == 0,
    {
        proof {
            lemma2_to64();
        }
        Prefix { bits: 0, len: 0 }
    }

    /// Membership test of an address against this prefix.
    pub fn matches(&self, addr: u64) -> (r: bool)
        requires
            self.wf(),
        ensures
            r == self.covers(addr),
    {
        if self.len == 0 {
            proof {
                lemma2_to64();
                lemma2_to64_rest();
                lemma_basic_div(addr as int, pow2(64) as int);
            }
            true
        } else {
            let shift: u64 = 64 - self.len;
            proof {
                lemma_u64_shr_is_div(addr, shift);
            }
            (addr >> shift) == self.bits
        }
    }

    /// Strict-descendant test: `self`'s segment lies properly inside
    /// `other`'s.
    pub fn is_descendant(&self, other: &Prefix) -> (r: bool)
        requires
            self.wf(),
            other.wf(),
        ensures
            r == self.is_strict_descendant_of(*other),
    {
        if self.len <= other.len {
            false
        } else if other.len == 0 {
            proof {
                lemma2_to64();
                lemma_pow2_pos(self.len as nat);
                lemma_basic_div(self.bits as int, pow2(self.len as nat) as int);
            }
            true
        } else {
            let shift: u64 = self.len - other.len;
            proof {
                lemma_u64_shr_is_div(self.bits, shift);
            }
            (self.bits >> shift) == other.bits
        }
    }

    /// The two children of this prefix; together they cover exactly the
    /// addresses this prefix covers.
    pub fn split(&self) -> (r: (Prefix, Prefix))
        requires
            self.wf(),
            self.len < 64,
        ensures
            r.0 == self.spec_child(false),
            r.1 == self.spec_child(true),
            r.0.wf(),
            r.1.wf(),
    {
        proof {
            lemma_pow2_adds(self.len as nat, 1);
            lemma2_to64();
            lemma_pow2_le_64(self.len as nat + 1);
        }
        (
            Prefix { bits: 2 * self.bits, len: self.len + 1 },
            Prefix { bits: 2 * self.bits + 1, len: self.len + 1 },
        )
    }

    /// The prefix one bit shorter than this one.
    pub fn parent(&self) -> (r: Prefix)
        requires
            self.wf(),
            self.len > 0,
        ensures
            r == self.spec_parent(),
            r.wf(),
            self.is_strict_descendant_of(r),
    {
        proof {
            lemma_pow2_adds((self.len - 1) as nat, 1);
            lemma2_to64();
        }
        Prefix { bits: self.bits / 2, len: self.len - 1 }
    }
}

/// `2^e` never exceeds `2^64` while `e <= 64`.
proof fn lemma_pow2_le_64(e: nat)
    requires
        e <= 64,
    ensures
        pow2(e) <= pow2(64),
        pow2(64) == 0x10000000000000000,
{
    lemma2_to64_rest();
    lemma_pow2_adds(e, (64 - e) as nat);
    lemma_pow2_pos(e);
    lemma_pow2_pos((64 - e) as nat);
    lemma_mul_inequality(1, pow2((64 - e) as nat) as int, pow2(e) as int);
    vstd::arithmetic::mul::lemma_mul_is_commutative(
        pow2(e) as int,
        pow2((64 - e) as nat) as int,
    );
}

/// The root prefix covers every address.
pub proof fn lemma_root_covers(p: Prefix, a: u64)
    requires
        p.wf(),
        p.len == 0,
    ensures
        p.covers(a),
{
    lemma2_to64();
    lemma2_to64_rest();
    lemma_basic_div(a as int, pow2(64) as int);
}

/// An address covered by a prefix is covered by every ancestor of that
/// prefix.
pub proof fn lemma_ancestor_covers(anc: Prefix, p: Prefix, a: u64)
    requires
        anc.wf(),
        p.wf(),
        anc.is_ancestor_of(p),
        p.covers(a),
    ensures
        anc.covers(a),
{
    let low = (64 - p.len) as nat;
    let diff = (p.len - anc.len) as nat;
    lemma_pow2_adds(low, diff);
    lemma_pow2_pos(low);
    lemma_pow2_pos(diff);
    lemma_div_denominator(a as int, pow2(low) as int, pow2(diff) as int);
}

/// Two prefixes covering a common address are comparable: the shallower one
/// is an ancestor of the deeper one.
pub proof fn lemma_common_address_comparable(p: Prefix, q: Prefix, a: u64)
    requires
        p.wf(),
        q.wf(),
        p.covers(a),
        q.covers(a),
        p.len <= q.len,
    ensures
        p.is_ancestor_of(q),
{
    let low = (64 - q.len) as nat;
    let diff = (q.len - p.len) as nat;
    lemma_pow2_adds(low, diff);
    lemma_pow2_pos(low);
    lemma_pow2_pos(diff);
    lemma_div_denominator(a as int, pow2(low) as int, pow2(diff) as int);
}

/// Every well-formed prefix covers its base address.
pub proof fn lemma_covers_base_addr(p: Prefix)
    requires
        p.wf(),
    ensures
        p.covers(p.base_addr()),
{
    let low = (64 - p.len) as nat;
    lemma_pow2_pos(low);
    lemma_pow2_adds(p.len as nat, low);
    lemma_pow2_le_64(64);
    assert(p.bits as nat * pow2(low) <= (pow2(p.len as nat) - 1) * pow2(low)) by {
        lemma_mul_inequality(p.bits as int, pow2(p.len as nat) as int - 1, pow2(low) as int);
    }
    assert((pow2(p.len as nat) - 1) * pow2(low) == pow2(64) - pow2(low)) by {
        vstd::arithmetic::mul::lemma_mul_is_distributive_sub_other_way(
            pow2(low) as int,
            pow2(p.len as nat) as int,
            1,
        );
    }
    assert(p.base_addr() as nat == p.bits as nat * pow2(low));
    lemma_div_by_multiple(p.bits as int, pow2(low) as int);
}

/// A child prefix lies strictly inside its parent.
pub proof fn lemma_child_strict_descendant(p: Prefix, right: bool)
    requires
        p.wf(),
        p.len < 64,
    ensures
        p.spec_child(right).is_strict_descendant_of(p),
        p.spec_child(right).wf(),
{
    lemma_pow2_adds(p.len as nat, 1);
    lemma2_to64();
    lemma_pow2_le_64((p.len + 1) as nat);
    let c = p.spec_child(right);
    assert(c.bits == 2 * p.bits + if right { 1int } else { 0int });
    lemma_fundamental_div_mod(c.bits as int, 2);
    lemma_mod_division_less_than_divisor(c.bits as int, 2);
    assert(c.bits as nat / pow2(1) == p.bits as nat);
}

/// A prefix's address space is exactly the disjoint union of its two
/// children's address spaces.
pub proof fn lemma_children_partition(p: Prefix, a: u64)
    requires
        p.wf(),
        p.len < 64,
    ensures
        p.covers(a) <==> (p.spec_child(false).covers(a) || p.spec_child(true).covers(a)),
        !(p.spec_child(false).covers(a) && p.spec_child(true).covers(a)),
        p.spec_child(false).wf(),
        p.spec_child(true).wf(),
{
    let low = (63 - p.len) as nat;
    let ai = a as int;
    lemma_pow2_adds(low, 1);
    lemma_pow2_adds(p.len as nat, 1);
    lemma2_to64();
    lemma_pow2_pos(low);
    lemma_pow2_le_64((p.len + 1) as nat);
    let q = ai / pow2(low) as int;
    assert(q >= 0) by {
        vstd::arithmetic::div_mod::lemma_div_pos_is_pos(ai, pow2(low) as int);
    }
    assert(pow2((low + 1) as nat) == pow2(low) * 2);
    assert((64 - p.len) as nat == low + 1);
    assert(ai / pow2((low + 1) as nat) as int == q / 2) by {
        lemma_div_denominator(ai, pow2(low) as int, 2);
    }
    lemma_fundamental_div_mod(q, 2);
    lemma_mod_division_less_than_divisor(q, 2);
    let c0 = p.spec_child(false);
    let c1 = p.spec_child(true);
    assert(2 * p.bits + 1 < pow2(64));
    assert(c0.bits == 2 * p.bits && c1.bits == 2 * p.bits + 1 && c0.len == p.len + 1 && c1.len
        == p.len + 1);
    assert(c0.covers(a) <==> q == 2 * p.bits);
    assert(c1.covers(a) <==> q == 2 * p.bits + 1);
    assert(p.covers(a) <==> q / 2 == p.bits);
    assert(q / 2 == p.bits <==> (q == 2 * p.bits || q == 2 * p.bits + 1));
}

} // verus!
