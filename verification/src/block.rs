//! The IPv4 CIDR block value type.

use crate::arith::{
    align_down, lemma_align_down_exact, lemma_align_down_props, lemma_aligned_coarse_to_fine,
    lemma_multiple_step, lemma_p2_divides, lemma_p2_increases, lemma_p2_pos, lemma_p2_values, p2,
};
use vstd::arithmetic::div_mod::lemma_fundamental_div_mod;
use vstd::arithmetic::power2::pow2;
use vstd::prelude::*;

verus! {

/// Why a block could not be produced: the mask was over 32, or the text did
/// not have the `a.b.c.d/m` shape.
#[derive(PartialEq, Eq, Structural, Clone, Copy, Debug)]
pub enum CidrError {
    InvalidMask,
    ParseError,
}

/// One aligned power-of-two-sized range of IPv4 addresses.
///
/// `net` is the first address of the range and `size` the number of free
/// low-order bits, so the block holds `2^size` addresses and its mask length
/// is `32 - size`.
#[derive(PartialEq, Eq, Structural, Clone, Copy, Debug)]
pub struct Ipv4Cidr {
    /// First address of the block, always aligned to `2^size`.
    pub net: u32,
    /// The block holds `2^size` addresses.
    pub size: u8,
}

/// The block that `Ipv4Cidr::new` yields for a mask of at most 32: the low
/// `32 - mask` bits of the address cleared, and that many free bits.
pub open spec fn construct(net: u32, mask: u8) -> Ipv4Cidr
    recommends
        mask <= 32,
{
    Ipv4Cidr {
        net: align_down(net as int, (32 - mask) as nat) as u32,
        size: (32 - mask) as u8,
    }
}

/// What `construct` yields is well formed and spans an aligned range around
/// the given address.
pub proof fn lemma_construct_wf(net: u32, mask: u8)
    requires
        mask <= 32,
    ensures
        construct(net, mask).wf(),
        construct(net, mask).size == 32 - mask,
        construct(net, mask).net as int == align_down(net as int, (32 - mask) as nat),
        construct(net, mask).spec_low() <= net <= construct(net, mask).spec_high(),
{
    let s = (32 - mask) as nat;
    lemma_align_down_props(net as int, s);
}

/// Containment is reflexive: every block contains itself.
pub proof fn lemma_contains_reflexive(b: Ipv4Cidr)
    requires
        b.wf(),
    ensures
        b.spec_contains(b),
{
}

/// Blocks made from one address nest: a shorter mask gives a block that
/// contains the block of any longer mask.
pub proof fn lemma_construct_nested(net: u32, m1: u8, m2: u8)
    requires
        m1 <= m2 <= 32,
    ensures
        construct(net, m1).spec_contains(construct(net, m2)),
{
    let b1 = construct(net, m1);
    let b2 = construct(net, m2);
    let s1 = (32 - m1) as nat;
    let s2 = (32 - m2) as nat;
    lemma_construct_wf(net, m1);
    lemma_construct_wf(net, m2);
    lemma_p2_pos(s1);
    lemma_p2_pos(s2);
    crate::arith::lemma_align_down_compose(net as int, s2, s1);
    lemma_align_down_props(net as int, s1);
    lemma_align_down_props(net as int, s2);
    lemma_align_down_props(b2.net as int, s1);
    assert((b1.net as int + p2(s1)) % p2(s2) == 0) by {
        lemma_aligned_coarse_to_fine(b1.net as int, s2, s1);
        lemma_p2_divides(s2, s1);
        vstd::arithmetic::div_mod::lemma_add_mod_noop(b1.net as int, p2(s1), p2(s2));
        vstd::arithmetic::div_mod::lemma_small_mod(0nat, pow2(s2));
    }
    lemma_multiple_step(b2.net as int, b1.net as int + p2(s1), p2(s2));
}

/// One mask level apart, containment is strict: the larger block made from
/// an address contains the smaller made from the same address, and never
/// the other way round.
pub proof fn lemma_containment_one_level(net: u32, mask: u8)
    requires
        mask < 32,
    ensures
        construct(net, mask).spec_contains(construct(net, (mask + 1) as u8)),
        !construct(net, (mask + 1) as u8).spec_contains(construct(net, mask)),
{
    let b1 = construct(net, mask);
    let b2 = construct(net, (mask + 1) as u8);
    let s = (32 - mask) as nat;
    lemma_construct_wf(net, mask);
    lemma_construct_wf(net, (mask + 1) as u8);
    lemma_p2_pos(s);
    lemma_p2_pos((s - 1) as nat);
    crate::arith::lemma_p2_unfold(s);
    lemma_align_down_props(net as int, s);
    lemma_align_down_props(net as int, (s - 1) as nat);
    crate::arith::lemma_align_down_compose(net as int, (s - 1) as nat, s);
    lemma_align_down_props(b2.net as int, s);
    // b2 sits inside b1's range, a whole half-step at a time.
    assert((b1.net as int + p2(s)) % p2((s - 1) as nat) == 0) by {
        lemma_aligned_coarse_to_fine(b1.net as int, (s - 1) as nat, s);
        lemma_p2_divides((s - 1) as nat, s);
        vstd::arithmetic::div_mod::lemma_add_mod_noop(b1.net as int, p2(s), p2((s - 1) as nat));
        vstd::arithmetic::div_mod::lemma_small_mod(0nat, pow2((s - 1) as nat));
    }
    lemma_multiple_step(b2.net as int, b1.net as int + p2(s), p2((s - 1) as nat));
}

impl Ipv4Cidr {
    /// The base address is aligned to the block's span.
    pub open spec fn wf(self) -> bool {
        self.size <= 32 && (self.net as int) % p2(self.size as nat) == 0
    }

    /// First address of the block.
    pub open spec fn spec_low(self) -> int {
        self.net as int
    }

    /// Last address of the block.
    pub open spec fn spec_high(self) -> int {
        self.net + p2(self.size as nat) - 1
    }

    /// Does the block hold address `a`?
    pub open spec fn spec_covers(self, a: int) -> bool {
        self.spec_low() <= a <= self.spec_high()
    }

    /// Does the block hold every address of `other`?
    pub open spec fn spec_contains(self, other: Ipv4Cidr) -> bool {
        self.spec_low() <= other.spec_low() && other.spec_high() <= self.spec_high()
    }

    /// The addresses of a well-formed block stay below `2^32`.
    pub proof fn lemma_high_in_range(self)
        requires
            self.wf(),
        ensures
            self.spec_high() < 0x100000000,
            self.spec_low() <= self.spec_high(),
    {
        let s = self.size as nat;
        lemma_p2_pos(s);
        lemma_p2_values();
        lemma_p2_increases(s, 32);
        if self.net as int + p2(s) > 0x100000000 {
            lemma_aligned_coarse_to_fine(0x100000000, s, 32);
            lemma_p2_divides(s, 32);
            lemma_multiple_step(self.net as int, 0x100000000, p2(s));
        }
    }

    /// Create a block from an address and a mask length.
    ///
    /// A mask over 32 is refused; otherwise the address is normalized down to
    /// the start of its block by clearing the low `32 - mask` bits.
    pub fn new(net: u32, mask: u8) -> (r: Result<Ipv4Cidr, CidrError>)
        ensures
            mask > 32 ==> r == Err::<Ipv4Cidr, CidrError>(CidrError::InvalidMask),
            mask <= 32 ==> (r matches Ok(b) && b.size == 32 - mask && b.net
                == align_down(net as int, (32 - mask) as nat) && b.wf()),
    {
        if mask > 32 {
            return Err(CidrError::InvalidMask);
        }
        let size: u8 = 32 - mask;
        let aligned: u32 = if mask == 0 {
            proof {
                lemma_p2_values();
                vstd::arithmetic::div_mod::lemma_basic_div(net as int, p2(32));
                vstd::arithmetic::div_mod::lemma_small_mod(0nat, pow2(32));
            }
            0
        } else if mask < 32 {
            proof {
                let s = size as nat;
                vstd::bits::lemma_u32_shr_is_div(net, size as u32);
                lemma_p2_pos(s);
                lemma_fundamental_div_mod(net as int, p2(s));
                vstd::arithmetic::div_mod::lemma_mod_bound(net as int, p2(s));
                assert(((net as int / p2(s)) * p2(s)) <= net as int);
                vstd::bits::lemma_u32_shl_is_mul((net >> (size as u32)) as u32, size as u32);
                lemma_mod_product(net as int / p2(s), p2(s));
            }
            (net >> (size as u32)) << (size as u32)
        } else {
            proof {
                lemma_p2_values();
                lemma_align_down_exact(net as int, 0);
            }
            net
        };
        Ok(Ipv4Cidr { net: aligned, size })
    }

    /// The mask length, `32 - size`.
    pub fn mask(&self) -> (r: u8)
        requires
            self.wf(),
        ensures
            r == 32 - self.size,
    {
        32 - self.size
    }

    /// A block of size 32 spans the whole address space, so its base is 0.
    pub proof fn lemma_universal(self)
        requires
            self.wf(),
            self.size == 32,
        ensures
            self.net == 0,
            self.spec_low() == 0,
            self.spec_high() == 0xFFFFFFFF,
    {
        lemma_p2_values();
        vstd::arithmetic::div_mod::lemma_small_mod(self.net as nat, pow2(32));
    }

    /// A containing block is at least as large as the contained one.
    pub proof fn lemma_contains_size(b1: Ipv4Cidr, b2: Ipv4Cidr)
        requires
            b1.wf(),
            b2.wf(),
            b1.spec_contains(b2),
        ensures
            b1.size >= b2.size,
    {
        if b1.size < b2.size {
            lemma_p2_increases((b1.size + 1) as nat, b2.size as nat);
            crate::arith::lemma_p2_unfold((b1.size + 1) as nat);
            lemma_p2_pos(b1.size as nat);
        }
    }

    /// A well-formed block that holds an address is the aligned block of its
    /// size around that address.
    pub proof fn lemma_base_is_aligned_cover(self, a: int)
        requires
            self.wf(),
            self.spec_covers(a),
        ensures
            self.net as int == crate::arith::align_down(a, self.size as nat),
    {
        crate::arith::lemma_align_down_unique(a, self.size as nat, self.net as int);
    }

    /// Mutual containment makes blocks equal.
    pub proof fn lemma_contains_antisym(b1: Ipv4Cidr, b2: Ipv4Cidr)
        requires
            b1.wf(),
            b2.wf(),
            b1.spec_contains(b2),
            b2.spec_contains(b1),
        ensures
            b1 == b2,
    {
        if b1.size < b2.size {
            lemma_p2_increases((b1.size + 1) as nat, b2.size as nat);
            crate::arith::lemma_p2_unfold((b1.size + 1) as nat);
            lemma_p2_pos(b1.size as nat);
        }
        if b2.size < b1.size {
            lemma_p2_increases((b2.size + 1) as nat, b1.size as nat);
            crate::arith::lemma_p2_unfold((b2.size + 1) as nat);
            lemma_p2_pos(b2.size as nat);
        }
    }

    /// Two well-formed blocks either nest or occupy disjoint address ranges.
    pub proof fn lemma_nest_or_disjoint(b1: Ipv4Cidr, b2: Ipv4Cidr)
        requires
            b1.wf(),
            b2.wf(),
            b1.size >= b2.size,
        ensures
            b1.spec_contains(b2) <==> b1.spec_covers(b2.spec_low()),
            !b1.spec_contains(b2) ==> b2.spec_high() < b1.spec_low() || b1.spec_high()
                < b2.spec_low(),
    {
        let s1 = b1.size as nat;
        let s2 = b2.size as nat;
        lemma_p2_pos(s1);
        lemma_p2_pos(s2);
        lemma_p2_increases(s2, s1);
        lemma_p2_divides(s2, s1);
        lemma_aligned_coarse_to_fine(b1.net as int, s2, s1);
        if b1.spec_covers(b2.spec_low()) {
            // b2 starts inside b1; a whole step of 2^s2 fits before b1 ends.
            assert((b1.net + p2(s1)) % p2(s2) == 0) by {
                vstd::arithmetic::div_mod::lemma_small_mod(0nat, pow2(s2));
                vstd::arithmetic::div_mod::lemma_add_mod_noop(b1.net as int, p2(s1), p2(s2));
            }
            lemma_multiple_step(b2.net as int, b1.net + p2(s1), p2(s2));
        } else {
            if b2.net < b1.net {
                lemma_multiple_step(b2.net as int, b1.net as int, p2(s2));
            }
        }
    }

    /// Overlapping well-formed blocks nest: one contains the other.
    pub proof fn lemma_overlap_nests(b1: Ipv4Cidr, b2: Ipv4Cidr)
        requires
            b1.wf(),
            b2.wf(),
            b1.spec_low() <= b2.spec_high(),
            b2.spec_low() <= b1.spec_high(),
        ensures
            b1.spec_contains(b2) || b2.spec_contains(b1),
    {
        if b1.size >= b2.size {
            Self::lemma_nest_or_disjoint(b1, b2);
        } else {
            Self::lemma_nest_or_disjoint(b2, b1);
        }
    }

    /// Equal shifted prefixes say exactly that `a` falls inside the aligned
    /// block of `2^s` addresses starting at `x`.
    proof fn lemma_prefix_eq_is_covers(x: u32, a: u32, s: u32)
        requires
            s < 32,
            (x as int) % p2(s as nat) == 0,
        ensures
            (x >> s == a >> s) <==> (x <= a < x + p2(s as nat)),
    {
        let ss = s as nat;
        lemma_p2_pos(ss);
        vstd::bits::lemma_u32_shr_is_div(x, s);
        vstd::bits::lemma_u32_shr_is_div(a, s);
        lemma_fundamental_div_mod(x as int, p2(ss));
        lemma_fundamental_div_mod(a as int, p2(ss));
        vstd::arithmetic::div_mod::lemma_mod_bound(a as int, p2(ss));
        let q = x as int / p2(ss);
        assert(x as int == p2(ss) * q);
        if x >> s == a >> s {
            assert(a as int == p2(ss) * q + (a as int) % p2(ss));
        } else {
            if x <= a < x + p2(ss) {
                vstd::arithmetic::div_mod::lemma_fundamental_div_mod_converse(
                    a as int,
                    p2(ss),
                    q,
                    a - x,
                );
            }
        }
    }

    /// Check whether the block holds the address `ip`.
    pub fn contains_ip(&self, ip: u32) -> (r: bool)
        requires
            self.wf(),
        ensures
            r == self.spec_covers(ip as int),
    {
        if self.size == 32 {
            proof {
                self.lemma_universal();
            }
            return true;
        }
        proof {
            Self::lemma_prefix_eq_is_covers(self.net, ip, self.size as u32);
        }
        self.net >> (self.size as u32) == ip >> (self.size as u32)
    }

    /// Check whether the block holds every address of `cidr`.
    pub fn contains_cidr(&self, cidr: &Ipv4Cidr) -> (r: bool)
        requires
            self.wf(),
            cidr.wf(),
        ensures
            r == self.spec_contains(*cidr),
    {
        if self.size == 32 {
            proof {
                self.lemma_universal();
                cidr.lemma_high_in_range();
            }
            return true;
        }
        if self.size < cidr.size {
            proof {
                lemma_p2_increases((self.size + 1) as nat, cidr.size as nat);
                crate::arith::lemma_p2_unfold((self.size + 1) as nat);
                lemma_p2_pos(self.size as nat);
            }
            return false;
        }
        proof {
            Self::lemma_prefix_eq_is_covers(self.net, cidr.net, self.size as u32);
            Self::lemma_nest_or_disjoint(*self, *cidr);
        }
        self.net >> (self.size as u32) == cidr.net >> (self.size as u32)
    }

    /// First and last address of the block, as an inclusive range.
    pub fn to_range(&self) -> (r: (u32, u32))
        requires
            self.wf(),
        ensures
            r.0 == self.spec_low(),
            r.1 == self.spec_high(),
            r.0 <= r.1,
            r.1 - r.0 + 1 == p2(self.size as nat),
    {
        if self.size == 32 {
            proof {
                self.lemma_universal();
            }
            return (0, u32::MAX);
        }
        proof {
            vstd::bits::lemma_u32_pow2_no_overflow(self.size as nat);
            vstd::bits::lemma_u32_shl_is_mul(1u32, self.size as u32);
            self.lemma_high_in_range();
        }
        (self.net, self.net + ((1u32 << (self.size as u32)) - 1))
    }

    /// First address of the block.
    pub fn first_ip(&self) -> (r: u32)
        requires
            self.wf(),
        ensures
            r == self.spec_low(),
    {
        self.net
    }

    /// Last address of the block.
    pub fn last_ip(&self) -> (r: u32)
        requires
            self.wf(),
        ensures
            r == self.spec_high(),
    {
        self.to_range().1
    }
}

/// A product `q * m` is a multiple of `m`.
proof fn lemma_mod_product(q: int, m: int)
    requires
        m > 0,
    ensures
        (q * m) % m == 0,
{
    vstd::arithmetic::div_mod::lemma_mod_multiples_basic(q, m);
}

} // verus!
