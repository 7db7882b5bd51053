//! The canonical CIDR collection type.
//!
//! An `Ipv4CidrList` keeps blocks in strictly increasing address order,
//! pairwise disjoint, and with no two sibling blocks left unmerged, so the
//! collection is the unique minimal set of CIDR blocks for the addresses it
//! holds.

use crate::arith::{
    align_down, lemma_align_down_compose, lemma_align_down_exact, lemma_align_down_props,
    lemma_multiple_step, lemma_p2_adds, lemma_p2_divides, lemma_p2_increases, lemma_p2_pos,
    lemma_p2_unfold, lemma_p2_values, p2,
};
use crate::block::Ipv4Cidr;
use vstd::arithmetic::div_mod::lemma_fundamental_div_mod;
use vstd::arithmetic::power2::pow2;
use vstd::prelude::*;

verus! {

/// `b1` and `b2` are the two halves of one aligned block of twice their
/// size: same size, `b2` directly after `b1`, and `b1` aligned one level up.
pub open spec fn siblings(b1: Ipv4Cidr, b2: Ipv4Cidr) -> bool {
    &&& b1.size == b2.size
    &&& b1.size < 32
    &&& b2.spec_low() == b1.spec_high() + 1
    &&& b1.spec_low() % p2((b1.size + 1) as nat) == 0
}

/// The collection invariant over the member sequence: every block well
/// formed, ranges strictly increasing and disjoint, and no mergeable pair.
pub open spec fn seq_wf(s: Seq<Ipv4Cidr>) -> bool {
    &&& forall|i: int| 0 <= i < s.len() ==> (#[trigger] s[i]).wf()
    &&& forall|i: int, j: int|
        0 <= i < j < s.len() ==> (#[trigger] s[i]).spec_high() < (#[trigger] s[j]).spec_low()
    &&& forall|i: int, j: int|
        0 <= i < s.len() && 0 <= j < s.len() && i != j ==> !siblings(
            #[trigger] s[i],
            #[trigger] s[j],
        )
}

/// Some member of `s` holds address `a`.
///
/// Kept opaque: proofs go through the coverage lemmas below, which keeps the
/// existential out of the solver's way.
#[verifier::opaque]
pub open spec fn seq_covers(s: Seq<Ipv4Cidr>, a: int) -> bool {
    exists|i: int| 0 <= i < s.len() && (#[trigger] s[i]).spec_covers(a)
}

/// A member holding an address shows the sequence covers it.
pub proof fn lemma_covers_witness(s: Seq<Ipv4Cidr>, i: int, a: int)
    requires
        0 <= i < s.len(),
        s[i].spec_covers(a),
    ensures
        seq_covers(s, a),
{
    reveal(seq_covers);
}

/// A covered address names some member holding it.
pub proof fn lemma_covers_elim(s: Seq<Ipv4Cidr>, a: int) -> (i: int)
    requires
        seq_covers(s, a),
    ensures
        0 <= i < s.len() && s[i].spec_covers(a),
{
    reveal(seq_covers);
    choose|i: int| 0 <= i < s.len() && (#[trigger] s[i]).spec_covers(a)
}

/// An empty sequence covers nothing.
pub proof fn lemma_covers_empty(s: Seq<Ipv4Cidr>)
    requires
        s.len() == 0,
    ensures
        forall|a: int| !seq_covers(s, a),
{
    reveal(seq_covers);
}

/// One more member extends a prefix's coverage by exactly its addresses.
proof fn lemma_covers_take_step(s: Seq<Ipv4Cidr>, i: int)
    requires
        0 <= i < s.len(),
    ensures
        forall|a: int|
            #![trigger seq_covers(s.take(i + 1), a)]
            #![trigger seq_covers(s.take(i), a)]
            seq_covers(s.take(i + 1), a) <==> seq_covers(s.take(i), a) || s[i].spec_covers(a),
{
    reveal(seq_covers);
    assert forall|a: int|
        seq_covers(s.take(i + 1), a) <==> seq_covers(s.take(i), a) || s[i].spec_covers(a) by {
        if seq_covers(s.take(i + 1), a) {
            let k = choose|k: int|
                0 <= k < s.take(i + 1).len() && (#[trigger] s.take(i + 1)[k]).spec_covers(a);
            if k < i {
                assert(s.take(i)[k].spec_covers(a));
            } else {
                assert(s[i].spec_covers(a));
            }
        }
        if seq_covers(s.take(i), a) {
            let k = choose|k: int|
                0 <= k < s.take(i).len() && (#[trigger] s.take(i)[k]).spec_covers(a);
            assert(s.take(i + 1)[k].spec_covers(a));
        }
        if s[i].spec_covers(a) {
            assert(s.take(i + 1)[i].spec_covers(a));
        }
    }
}

/// Some inclusive pair of `rs` holds address `a`.  Opaque like `seq_covers`.
#[verifier::opaque]
pub open spec fn ranges_cover(rs: Seq<(u32, u32)>, a: int) -> bool {
    exists|k: int| 0 <= k < rs.len() && (#[trigger] rs[k]).0 <= a <= rs[k].1
}

/// A pair holding an address shows the range list covers it.
pub proof fn lemma_ranges_witness(rs: Seq<(u32, u32)>, k: int, a: int)
    requires
        0 <= k < rs.len(),
        rs[k].0 <= a <= rs[k].1,
    ensures
        ranges_cover(rs, a),
{
    reveal(ranges_cover);
}

/// A covered address names some pair holding it.
pub proof fn lemma_ranges_elim(rs: Seq<(u32, u32)>, a: int) -> (k: int)
    requires
        ranges_cover(rs, a),
    ensures
        0 <= k < rs.len() && rs[k].0 <= a <= rs[k].1,
{
    reveal(ranges_cover);
    choose|k: int| 0 <= k < rs.len() && (#[trigger] rs[k]).0 <= a <= rs[k].1
}

/// An empty range list covers nothing.
pub proof fn lemma_ranges_empty(rs: Seq<(u32, u32)>)
    requires
        rs.len() == 0,
    ensures
        forall|a: int| !ranges_cover(rs, a),
{
    reveal(ranges_cover);
}

/// One more pair extends a range list's coverage by exactly its addresses.
proof fn lemma_ranges_push(rs: Seq<(u32, u32)>, p: (u32, u32))
    ensures
        forall|a: int|
            #![trigger ranges_cover(rs.push(p), a)]
            #![trigger ranges_cover(rs, a)]
            ranges_cover(rs.push(p), a) <==> ranges_cover(rs, a) || p.0 <= a <= p.1,
{
    reveal(ranges_cover);
    assert forall|a: int|
        ranges_cover(rs.push(p), a) <==> ranges_cover(rs, a) || p.0 <= a <= p.1 by {
        if ranges_cover(rs.push(p), a) {
            let k = choose|k: int|
                0 <= k < rs.push(p).len() && (#[trigger] rs.push(p)[k]).0 <= a <= rs.push(p)[
                k].1;
            if k < rs.len() {
                assert(rs[k].0 <= a <= rs[k].1);
            }
        }
        if ranges_cover(rs, a) {
            let k = choose|k: int| 0 <= k < rs.len() && (#[trigger] rs[k]).0 <= a <= rs[k].1;
            assert(rs.push(p)[k].0 <= a <= rs.push(p)[k].1);
        }
        if p.0 <= a <= p.1 {
            assert(rs.push(p)[rs.len() as int].0 <= a <= rs.push(p)[rs.len() as int].1);
        }
    }
}

/// An ordered collection of disjoint CIDR blocks in minimal form.
#[derive(Clone)]
pub struct Ipv4CidrList {
    /// The member blocks, in strictly increasing address order.
    pub blocks: Vec<Ipv4Cidr>,
}

impl View for Ipv4CidrList {
    type V = Seq<Ipv4Cidr>;

    open spec fn view(&self) -> Seq<Ipv4Cidr> {
        self.blocks@
    }
}

impl Ipv4CidrList {
    /// The collection invariant.
    pub open spec fn wf(self) -> bool {
        seq_wf(self@)
    }

    /// The collection holds address `a`.
    pub open spec fn covers(self, a: int) -> bool {
        seq_covers(self@, a)
    }

    /// Create an empty collection.
    pub fn new() -> (r: Self)
        ensures
            r.wf(),
            r@.len() == 0,
    {
        Ipv4CidrList { blocks: Vec::new() }
    }

    /// Number of member blocks.
    pub fn len(&self) -> (r: usize)
        ensures
            r == self@.len(),
    {
        self.blocks.len()
    }

    /// The member blocks in increasing address order.
    pub fn iter(&self) -> (r: &Vec<Ipv4Cidr>)
        ensures
            r@ == self@,
    {
        &self.blocks
    }

    /// Mutable access to the member blocks.  A caller that changes them is
    /// on its own: the collection's operations ask for the invariant again.
    pub fn iter_mut(&mut self) -> (r: &mut Vec<Ipv4Cidr>)
        ensures
            (*r)@ == old(self)@,
            final(self)@ == (*final(r))@,
    {
        &mut self.blocks
    }

    /// Distinct members of a well-formed sequence have distinct bases.
    proof fn lemma_nets_distinct(s: Seq<Ipv4Cidr>)
        requires
            seq_wf(s),
        ensures
            forall|i: int, j: int|
                0 <= i < s.len() && 0 <= j < s.len() && i != j ==> (#[trigger] s[i]).net != (
                #[trigger] s[j]).net,
    {
        assert forall|i: int, j: int|
            0 <= i < s.len() && 0 <= j < s.len() && i != j implies (#[trigger] s[i]).net != (
        #[trigger] s[j]).net by {
            lemma_p2_pos(s[i].size as nat);
            lemma_p2_pos(s[j].size as nat);
            if i < j {
                assert(s[i].spec_high() < s[j].spec_low());
            } else {
                assert(s[j].spec_high() < s[i].spec_low());
            }
        }
    }

    /// Find the member stored under base address `key`, if any.
    fn find_index(&self, key: u32) -> (r: Option<usize>)
        ensures
            match r {
                Some(i) => 0 <= i < self@.len() && self@[i as int].net == key,
                None => forall|i: int| 0 <= i < self@.len() ==> (#[trigger] self@[i]).net != key,
            },
    {
        let n = self.blocks.len();
        let mut i: usize = 0;
        while i < n
            invariant
                n == self@.len(),
                0 <= i <= n,
                forall|k: int| 0 <= k < i ==> (#[trigger] self@[k]).net != key,
            decreases n - i,
        {
            if self.blocks[i].net == key {
                return Some(i);
            }
            i += 1;
        }
        None
    }

    /// `align_down` to 32 bits sends every address to 0.
    proof fn lemma_align_down_32(x: u32)
        ensures
            align_down(x as int, 32) == 0,
    {
        lemma_p2_values();
        vstd::arithmetic::div_mod::lemma_basic_div(x as int, p2(32));
    }

    /// Get the parent CIDR block of `cidr`: a member equal to it or
    /// containing it.
    ///
    /// The walk probes the collection for a member keyed at each enclosing
    /// aligned block's base, from `cidr`'s own level upward, skipping levels
    /// whose base address is unchanged because the climbed bit is zero.
    pub fn search_parent(&self, cidr: &Ipv4Cidr) -> (r: Option<&Ipv4Cidr>)
        requires
            self.wf(),
            cidr.wf(),
        ensures
            match r {
                Some(b) => b.wf() && (exists|i: int|
                    0 <= i < self@.len() && self@[i] == *b) && b.spec_contains(*cidr),
                None => forall|i: int|
                    0 <= i < self@.len() ==> !(#[trigger] self@[i]).spec_contains(*cidr),
            },
    {
        let mut net: u32 = cidr.net;
        let mut size: u8 = cidr.size;
        proof {
            lemma_align_down_exact(cidr.net as int, cidr.size as nat);
            assert forall|i: int|
                0 <= i < self@.len() && (#[trigger] self@[i]).spec_contains(*cidr) implies self@[
            i].size >= cidr.size by {
                Ipv4Cidr::lemma_contains_size(self@[i], *cidr);
            }
        }
        loop
            invariant
                self.wf(),
                cidr.wf(),
                cidr.size <= size <= 32,
                net as int == align_down(cidr.net as int, size as nat),
                forall|i: int|
                    0 <= i < self@.len() && (#[trigger] self@[i]).spec_contains(*cidr)
                        ==> self@[i].size >= size,
            decreases 32 - size,
        {
            match self.find_index(net) {
                Some(i) => {
                    let v = &self.blocks[i];
                    if v.size >= size {
                        proof {
                            lemma_align_down_props(cidr.net as int, size as nat);
                            lemma_p2_increases(size as nat, v.size as nat);
                            cidr.lemma_high_in_range();
                            Ipv4Cidr::lemma_nest_or_disjoint(*v, *cidr);
                        }
                        return Some(v);
                    }
                    proof {
                        Self::lemma_nets_distinct(self@);
                        assert(forall|k: int|
                            0 <= k < self@.len() && (#[trigger] self@[k]).net == net
                                ==> self@[k].size < size);
                    }
                }
                None => {
                    assert(forall|k: int|
                        0 <= k < self@.len() && (#[trigger] self@[k]).net == net
                            ==> self@[k].size < size);
                }
            }
            // No member at this base can contain `cidr` any more, so a
            // containing member must sit at a coarser level under another base.
            assert(forall|k: int|
                0 <= k < self@.len() && (#[trigger] self@[k]).spec_contains(*cidr)
                    ==> self@[k].size >= size && self@[k].net != net);
            if size == 32 {
                proof {
                    Self::lemma_align_down_32(cidr.net);
                    assert forall|k: int| 0 <= k < self@.len() implies !(
                    #[trigger] self@[k]).spec_contains(*cidr) by {
                        if self@[k].spec_contains(*cidr) {
                            self@[k].lemma_universal();
                        }
                    }
                }
                return None;
            }
            let ghost pbase = net as int;
            let ghost size0 = size;
            proof {
                lemma_align_down_props(cidr.net as int, size as nat);
                vstd::bits::lemma_u32_shr_is_div(net, size as u32);
            }
            net = net >> (size as u32);
            while net & 1 == 0
                invariant
                    self.wf(),
                    cidr.wf(),
                    cidr.size <= size < 32,
                    size0 <= size,
                    pbase == align_down(cidr.net as int, size as nat),
                    pbase % p2(size as nat) == 0,
                    net as int == pbase / p2(size as nat),
                    forall|k: int|
                        0 <= k < self@.len() && (#[trigger] self@[k]).spec_contains(*cidr)
                            ==> self@[k].size >= size && self@[k].net != pbase,
                decreases 32 - size,
            {
                proof {
                    assert(net & 1 == net % 2) by (bit_vector);
                    lemma_align_down_props(cidr.net as int, size as nat);
                    lemma_parity_step(pbase, net as int, size as nat);
                    // The climbed bit is zero, so the base is unchanged one
                    // level up.
                    lemma_align_down_compose(cidr.net as int, size as nat, (size + 1) as nat);
                    lemma_align_down_exact(pbase, (size + 1) as nat);
                    assert(net as int / 2 == pbase / p2((size + 1) as nat)) by {
                        lemma_p2_pos(size as nat);
                        lemma_p2_unfold((size + 1) as nat);
                        vstd::arithmetic::div_mod::lemma_div_denominator(pbase, p2(size as nat), 2);
                    }
                    vstd::bits::lemma_u32_shr_is_div(net, 1u32);
                    lemma_p2_values();
                }
                net = net >> 1u32;
                size = size + 1;
                proof {
                    assert forall|k: int|
                        0 <= k < self@.len() && (#[trigger] self@[k]).spec_contains(*cidr) implies
                    self@[k].size >= size && self@[k].net != pbase by {
                        if self@[k].size == size - 1 {
                            lemma_p2_pos(cidr.size as nat);
                            self@[k].lemma_base_is_aligned_cover(cidr.net as int);
                        }
                    }
                }
                if size == 32 {
                    proof {
                        Self::lemma_align_down_32(cidr.net);
                        lemma_p2_values();
                        vstd::arithmetic::div_mod::lemma_small_mod(pbase as nat, pow2(32));
                        assert(pbase == 0);
                        assert forall|k: int| 0 <= k < self@.len() implies !(
                        #[trigger] self@[k]).spec_contains(*cidr) by {
                            if self@[k].spec_contains(*cidr) {
                                self@[k].lemma_universal();
                            }
                        }
                    }
                    return None;
                }
            }
            // The climbed bit is set: the parent base clears it.
            proof {
                assert(net & 1 == net % 2) by (bit_vector);
                lemma_align_down_props(cidr.net as int, size as nat);
                lemma_parity_step(pbase, net as int, size as nat);
                lemma_align_down_compose(cidr.net as int, size as nat, (size + 1) as nat);
                lemma_p2_pos((size + 1) as nat);
                lemma_p2_pos(size as nat);
                vstd::arithmetic::div_mod::lemma_div_pos_is_pos(pbase, p2((size + 1) as nat));
                assert(align_down(pbase, (size + 1) as nat) == pbase - p2(size as nat)) by {
                    lemma_fundamental_div_mod(pbase, p2((size + 1) as nat));
                    let h = pbase / p2((size + 1) as nat);
                    assert(h * p2((size + 1) as nat) == p2((size + 1) as nat) * h)
                        by (nonlinear_arith);
                }
                assert((net - 1) * p2(size as nat) == pbase - p2(size as nat)) by {
                    lemma_fundamental_div_mod(pbase, p2(size as nat));
                    assert(pbase == p2(size as nat) * (net as int));
                    assert((net - 1) * p2(size as nat) == p2(size as nat) * (net as int) - p2(
                        size as nat,
                    )) by (nonlinear_arith);
                }
                assert(pbase >= p2(size as nat));
                vstd::bits::lemma_u32_shl_is_mul((net - 1) as u32, size as u32);
            }
            net = (net - 1) << (size as u32);
            size = size + 1;
            proof {
                assert forall|k: int|
                    0 <= k < self@.len() && (#[trigger] self@[k]).spec_contains(*cidr) implies self@[
                k].size >= size by {
                    if self@[k].size == size - 1 {
                        lemma_p2_pos(cidr.size as nat);
                        self@[k].lemma_base_is_aligned_cover(cidr.net as int);
                    }
                }
            }
        }
    }

    /// Check whether some member block equals `cidr` or contains it.
    pub fn contains_cidr(&self, cidr: &Ipv4Cidr) -> (r: bool)
        requires
            self.wf(),
            cidr.wf(),
        ensures
            r == exists|i: int|
                0 <= i < self@.len() && (#[trigger] self@[i]).spec_contains(*cidr),
    {
        match self.search_parent(cidr) {
            Some(_) => true,
            None => false,
        }
    }

    /// Check whether some member block holds the address `ip`.
    pub fn contains_ip(&self, ip: u32) -> (r: bool)
        requires
            self.wf(),
        ensures
            r == self.covers(ip as int),
    {
        let one = Ipv4Cidr { net: ip, size: 0 };
        proof {
            reveal(seq_covers);
            lemma_p2_values();
            assert(one.wf());
            assert forall|i: int| 0 <= i < self@.len() implies ((#[trigger] self@[i]).spec_contains(
                one,
            ) == self@[i].spec_covers(ip as int)) by {}
            if self.covers(ip as int) {
                let i = choose|i: int|
                    0 <= i < self@.len() && (#[trigger] self@[i]).spec_covers(ip as int);
                assert(self@[i].spec_contains(one));
            }
        }
        self.contains_cidr(&one)
    }

    /// Grow `cur` by repeatedly absorbing the same-size member at its pair
    /// address, until no sibling is left in the collection.
    ///
    /// (The pair computation lives in `sibling_base` below.)
    #[verifier::spinoff_prover]
    fn merge_up(&mut self, cur0: Ipv4Cidr) -> (r: Ipv4Cidr)
        requires
            old(self).wf(),
            cur0.wf(),
            forall|k: int|
                0 <= k < old(self)@.len() ==> ((#[trigger] old(self)@[k]).spec_high()
                    < cur0.spec_low() || cur0.spec_high() < old(self)@[k].spec_low()),
        ensures
            final(self).wf(),
            r.wf(),
            r.spec_contains(cur0),
            forall|k: int|
                0 <= k < final(self)@.len() ==> ((#[trigger] final(self)@[k]).spec_high()
                    < r.spec_low() || r.spec_high() < final(self)@[k].spec_low()),
            forall|k: int|
                0 <= k < final(self)@.len() ==> !siblings(#[trigger] final(self)@[k], r)
                    && !siblings(r, #[trigger] final(self)@[k]),
            forall|a: int|
                #![trigger seq_covers(final(self)@, a)]
                #![trigger seq_covers(old(self)@, a)]
                (seq_covers(final(self)@, a) || r.spec_covers(a)) <==> (seq_covers(
                    old(self)@,
                    a,
                ) || cur0.spec_covers(a)),
    {
        let mut cur = cur0;
        loop
            invariant
                seq_wf(self@),
                cur.wf(),
                cur0.wf(),
                cur0.size <= cur.size <= 32,
                cur.spec_contains(cur0),
                forall|k: int|
                    0 <= k < self@.len() ==> ((#[trigger] self@[k]).spec_high() < cur.spec_low()
                        || cur.spec_high() < self@[k].spec_low()),
                forall|a: int|
                    (seq_covers(self@, a) || cur.spec_covers(a)) <==> (seq_covers(
                        old(self)@,
                        a,
                    ) || cur0.spec_covers(a)),
            decreases 32 - cur.size,
        {
            let ghost pre = self@;
            if cur.size == 32 {
                proof {
                    assert(forall|k: int|
                        0 <= k < self@.len() ==> !siblings(#[trigger] self@[k], cur) && !siblings(
                            cur,
                            #[trigger] self@[k],
                        ));
                }
                return cur;
            }
            let pair = sibling_base(&cur);
            let mut merged = false;
            match self.find_index(pair) {
                Some(j) => {
                    if self.blocks[j].size == cur.size {
                        let ghost pb = self@[j as int];
                        proof {
                            lemma_p2_pos(cur.size as nat);
                            lemma_seq_wf_remove(self@, j as int);
                            lemma_seq_covers_remove(self@, j as int);
                        }
                        self.blocks.remove(j);
                        let parent_net = if pair > cur.net {
                            cur.net
                        } else {
                            pair
                        };
                        let parent = Ipv4Cidr { net: parent_net, size: cur.size + 1 };
                        proof {
                            lemma_merge_parent(pre, j as int, cur, pb, parent);
                        }
                        cur = parent;
                        merged = true;
                    } else {
                        proof {
                            Self::lemma_nets_distinct(self@);
                            lemma_no_sibling(self@, cur);
                        }
                    }
                }
                None => {
                    proof {
                        lemma_no_sibling(self@, cur);
                    }
                }
            }
            if !merged {
                proof {
                    assert(forall|k: int|
                        0 <= k < self@.len() ==> !siblings(#[trigger] self@[k], cur) && !siblings(
                            cur,
                            #[trigger] self@[k],
                        ));
                }
                return cur;
            }
        }
    }

    /// Put `cur`, known to be disjoint from every member and sibling to
    /// none, at its place in address order.
    #[verifier::spinoff_prover]
    fn place_block(&mut self, cur: Ipv4Cidr)
        requires
            old(self).wf(),
            cur.wf(),
            forall|k: int|
                0 <= k < old(self)@.len() ==> ((#[trigger] old(self)@[k]).spec_high()
                    < cur.spec_low() || cur.spec_high() < old(self)@[k].spec_low()),
            forall|k: int|
                0 <= k < old(self)@.len() ==> !siblings(#[trigger] old(self)@[k], cur)
                    && !siblings(cur, #[trigger] old(self)@[k]),
        ensures
            final(self).wf(),
            forall|a: int|
                #![trigger seq_covers(final(self)@, a)]
                #![trigger seq_covers(old(self)@, a)]
                seq_covers(final(self)@, a) <==> seq_covers(old(self)@, a) || cur.spec_covers(a),
            exists|i: int| 0 <= i < final(self)@.len() && #[trigger] final(self)@[i] == cur,
    {
        let n = self.blocks.len();
        let mut pos: usize = 0;
        while pos < n && self.blocks[pos].net < cur.net
            invariant
                n == self@.len(),
                0 <= pos <= n,
                forall|k: int| 0 <= k < pos ==> (#[trigger] self@[k]).net < cur.net,
            decreases n - pos,
        {
            pos += 1;
        }
        proof {
            lemma_p2_pos(cur.size as nat);
            assert forall|k: int| 0 <= k < pos implies (#[trigger] self@[k]).spec_high()
                < cur.spec_low() by {
                lemma_p2_pos(self@[k].size as nat);
            }
            assert forall|k: int| pos <= k < n implies cur.spec_high() < (
            #[trigger] self@[k]).spec_low() by {
                lemma_p2_pos(self@[k].size as nat);
                lemma_p2_pos(self@[pos as int].size as nat);
                if k > pos {
                    assert(self@[pos as int].spec_high() < self@[k].spec_low());
                }
            }
            lemma_seq_wf_insert(self@, pos as int, cur);
            lemma_seq_covers_insert(self@, pos as int, cur);
        }
        self.blocks.insert(pos, cur);
        proof {
            assert(self@[pos as int] == cur);
        }
    }

    /// Insert a CIDR block; `true` means the collection's member blocks were
    /// rebuilt (everything except the case of a strictly larger member
    /// already covering the block, which leaves the collection as it was).
    ///
    /// Afterwards the collection holds exactly the old addresses plus the
    /// block's, again in minimal form: members made redundant by the new
    /// block are deleted, and the block is merged with its same-size sibling
    /// as long as one is present.
    #[verifier::spinoff_prover]
    pub fn insert(&mut self, cidr: Ipv4Cidr) -> (r: bool)
        requires
            old(self).wf(),
            cidr.wf(),
        ensures
            final(self).wf(),
            forall|a: int|
                #![trigger seq_covers(final(self)@, a)]
                #![trigger seq_covers(old(self)@, a)]
                seq_covers(final(self)@, a) <==> seq_covers(old(self)@, a) || cidr.spec_covers(a),
            r == !(exists|i: int|
                0 <= i < old(self)@.len() && (#[trigger] old(self)@[i]).spec_contains(cidr)
                    && old(self)@[i] != cidr),
            !r ==> final(self)@ == old(self)@,
            exists|i: int|
                0 <= i < final(self)@.len() && (#[trigger] final(self)@[i]).spec_contains(cidr),
    {
        let ghost orig = self@;
        self.delete_in_range(&cidr);
        let ghost mid = self@;
        if self.contains_cidr(&cidr) {
            proof {
                let i = choose|i: int|
                    0 <= i < mid.len() && (#[trigger] mid[i]).spec_contains(cidr);
                lemma_ancestor_blocks_deletion(orig, cidr, i);
            }
            return false;
        }
        proof {
            lemma_disjoint_after_deletion(orig, cidr);
        }
        let cur = self.merge_up(cidr);
        let ghost am = self@;
        self.place_block(cur);
        proof {
            let pos = choose|i: int| 0 <= i < self@.len() && #[trigger] self@[i] == cur;
            assert(self@[pos].spec_contains(cidr));
            lemma_union_through_deletion(orig, cidr);
            lemma_no_strict_ancestor(orig, cidr);
            assert forall|a: int| self.covers(a) <==> seq_covers(orig, a) || cidr.spec_covers(
                a,
            ) by {
                assert(seq_covers(self@, a) <==> seq_covers(am, a) || cur.spec_covers(a));
                assert((seq_covers(am, a) || cur.spec_covers(a)) <==> (seq_covers(mid, a)
                    || cidr.spec_covers(a)));
                assert((seq_covers(mid, a) || cidr.spec_covers(a)) <==> (seq_covers(orig, a)
                    || cidr.spec_covers(a)));
            }
        }
        true
    }

    /// Generate a collection holding exactly the addresses `from..=to`,
    /// decomposed into the minimal set of aligned blocks.  An empty range
    /// (`from > to`) gives the empty collection.
    pub fn from_range(from: u32, to: u32) -> (r: Self)
        ensures
            r.wf(),
            forall|a: int| #[trigger] seq_covers(r@, a) <==> from <= a <= to,
    {
        let mut list = Ipv4CidrList::new();
        if from > to {
            proof {
                lemma_covers_empty(list@);
            }
            return list;
        }
        let ghost pre = list@;
        Self::from_range_build(from, to, &mut list);
        proof {
            lemma_covers_empty(pre);
        }
        list
    }

    /// Decompose `from..=to` into aligned blocks and insert them all: take
    /// the largest aligned block on the endpoints' common prefix; if it is
    /// not exactly the range, split at the aligned midpoint and recurse.
    fn from_range_build(from: u32, to: u32, list: &mut Ipv4CidrList)
        requires
            from <= to,
            old(list).wf(),
        ensures
            final(list).wf(),
            forall|a: int|
                #![trigger seq_covers(final(list)@, a)]
                #![trigger seq_covers(old(list)@, a)]
                seq_covers(final(list)@, a) <==> seq_covers(old(list)@, a) || from <= a <= to,
        decreases to - from,
    {
        let mut f = from;
        let mut t = to;
        let mut m: u8 = 0;
        proof {
            lemma_p2_values();
        }
        while f != t
            invariant
                from <= to,
                m <= 32,
                f as int == from as int / p2(m as nat),
                t as int == to as int / p2(m as nat),
                m > 0 ==> from as int / p2((m - 1) as nat) != to as int / p2((m - 1) as nat),
            decreases 32 - m,
        {
            proof {
                lemma_p2_values();
                if m == 32 {
                    vstd::arithmetic::div_mod::lemma_basic_div(from as int, p2(32));
                    vstd::arithmetic::div_mod::lemma_basic_div(to as int, p2(32));
                    assert(false);
                }
                lemma_p2_pos(m as nat);
                lemma_p2_unfold((m + 1) as nat);
                vstd::arithmetic::div_mod::lemma_div_denominator(from as int, p2(m as nat), 2);
                vstd::arithmetic::div_mod::lemma_div_denominator(to as int, p2(m as nat), 2);
                vstd::bits::lemma_u32_shr_is_div(f, 1u32);
                vstd::bits::lemma_u32_shr_is_div(t, 1u32);
            }
            f = f >> 1u32;
            t = t >> 1u32;
            m = m + 1;
        }
        proof {
            lemma_p2_pos(m as nat);
            vstd::arithmetic::div_mod::lemma_fundamental_div_mod(from as int, p2(m as nat));
            vstd::arithmetic::div_mod::lemma_mod_bound(from as int, p2(m as nat));
            assert(f as int * p2(m as nat) <= from as int) by (nonlinear_arith)
                requires
                    from as int == p2(m as nat) * (f as int) + from as int % p2(m as nat),
                    from as int % p2(m as nat) >= 0,
            ;
        }
        let x: u32 = if m == 32 {
            proof {
                Self::lemma_align_down_32(from);
            }
            0
        } else {
            proof {
                vstd::bits::lemma_u32_shl_is_mul(f, m as u32);
            }
            f << (m as u32)
        };
        proof {
            assert(x as int == align_down(from as int, m as nat));
            lemma_align_down_props(from as int, m as nat);
            lemma_align_down_exact(x as int, m as nat);
        }
        let block = match Ipv4Cidr::new(x, 32 - m) {
            Ok(b) => b,
            Err(_) => {
                proof {
                    assert(false);
                }
                Ipv4Cidr { net: 0, size: 0 }
            },
        };
        let (bf, bt) = block.to_range();
        if bf == from && bt == to {
            list.insert(block);
            return;
        }
        proof {
            lemma_p2_values();
            if m == 0 {
                assert(align_down(from as int, 0) == from as int) by {
                    lemma_align_down_exact(from as int, 0);
                }
                assert(false);
            }
            // The endpoints differ one level down, so `from` sits in the
            // lower half and `to` in the upper half.
            lemma_p2_pos((m - 1) as nat);
            lemma_p2_unfold(m as nat);
            let u = from as int / p2((m - 1) as nat);
            let v = to as int / p2((m - 1) as nat);
            vstd::arithmetic::div_mod::lemma_div_denominator(from as int, p2((m - 1) as nat), 2);
            vstd::arithmetic::div_mod::lemma_div_denominator(to as int, p2((m - 1) as nat), 2);
            assert(u / 2 == f as int && v / 2 == t as int) by {
                lemma_p2_adds((m - 1) as nat, 1);
                lemma_p2_values();
                assert(p2((m - 1) as nat) * 2 == p2(m as nat));
            }
            vstd::arithmetic::div_mod::lemma_fundamental_div_mod(u, 2);
            vstd::arithmetic::div_mod::lemma_fundamental_div_mod(v, 2);
            vstd::arithmetic::div_mod::lemma_mod_bound(u, 2);
            vstd::arithmetic::div_mod::lemma_mod_bound(v, 2);
            vstd::arithmetic::div_mod::lemma_div_is_ordered(from as int, to as int, p2((m
                - 1) as nat));
            assert(u == 2 * (f as int) && v == 2 * (f as int) + 1);
            // Bounds for the midpoint arithmetic.
            vstd::arithmetic::div_mod::lemma_fundamental_div_mod(from as int, p2((m - 1) as nat));
            vstd::arithmetic::div_mod::lemma_mod_bound(from as int, p2((m - 1) as nat));
            vstd::arithmetic::div_mod::lemma_fundamental_div_mod(to as int, p2((m - 1) as nat));
            vstd::arithmetic::div_mod::lemma_mod_bound(to as int, p2((m - 1) as nat));
            assert((from as int) < (u + 1) * p2((m - 1) as nat) && (u + 1) * p2((m - 1) as nat)
                <= to as int) by (nonlinear_arith)
                requires
                    from as int == p2((m - 1) as nat) * u + from as int % p2((m - 1) as nat),
                    to as int == p2((m - 1) as nat) * v + to as int % p2((m - 1) as nat),
                    0 <= from as int % p2((m - 1) as nat) < p2((m - 1) as nat),
                    0 <= to as int % p2((m - 1) as nat) < p2((m - 1) as nat),
                    v == u + 1,
            ;
            assert((f as int) * 2 < 0x100000000) by (nonlinear_arith)
                requires
                    (f as int) * p2(m as nat) <= from as int,
                    from < 0x100000000,
                    p2(m as nat) >= 2,
                    f >= 0,
            ;
            vstd::bits::lemma_u32_shl_is_mul(f, 1u32);
            lemma_p2_values();
            assert((2 * (f as int) + 1) * p2((m - 1) as nat) == (u + 1) * p2((m - 1) as nat));
            vstd::bits::lemma_u32_shl_is_mul(((f << 1) + 1) as u32, (m - 1) as u32);
        }
        let mid: u32 = ((f << 1u32) + 1) << ((m - 1) as u32);
        Self::from_range_build(from, mid - 1, list);
        Self::from_range_build(mid, to, list);
    }

    /// Insert every member of `other`.
    fn insert_all(&mut self, other: &Ipv4CidrList)
        requires
            old(self).wf(),
            other.wf(),
        ensures
            final(self).wf(),
            forall|a: int|
                #![trigger seq_covers(final(self)@, a)]
                #![trigger seq_covers(old(self)@, a)]
                seq_covers(final(self)@, a) <==> seq_covers(old(self)@, a) || seq_covers(
                    other@,
                    a,
                ),
    {
        let n = other.blocks.len();
        let mut i: usize = 0;
        proof {
            lemma_covers_empty(other@.take(0));
        }
        while i < n
            invariant
                seq_wf(self@),
                other.wf(),
                n == other@.len(),
                0 <= i <= n,
                forall|a: int|
                    #![trigger seq_covers(self@, a)]
                    seq_covers(self@, a) <==> seq_covers(old(self)@, a) || seq_covers(
                        other@.take(i as int),
                        a,
                    ),
            decreases n - i,
        {
            proof {
                lemma_covers_take_step(other@, i as int);
            }
            self.insert(other.blocks[i]);
            i += 1;
        }
        proof {
            assert(other@.take(n as int) =~= other@);
        }
    }

    /// Export the members as inclusive address ranges, coalescing adjacent
    /// blocks into one run: the result is the sorted list of maximal
    /// contiguous runs, with a real gap between consecutive runs.
    #[verifier::spinoff_prover]
    pub fn to_range(&self) -> (r: Vec<(u32, u32)>)
        requires
            self.wf(),
        ensures
            forall|k: int| 0 <= k < r@.len() ==> (#[trigger] r@[k]).0 <= r@[k].1,
            forall|k: int|
                0 <= k < r@.len() - 1 ==> (#[trigger] r@[k]).1 + 1 < r@[k + 1].0,
            forall|a: int|
                #![trigger seq_covers(self@, a)]
                #![trigger ranges_cover(r@, a)]
                ranges_cover(r@, a) <==> seq_covers(self@, a),
    {
        let n = self.blocks.len();
        let mut v: Vec<(u32, u32)> = Vec::new();
        if n == 0 {
            proof {
                lemma_ranges_empty(v@);
                lemma_covers_empty(self@);
            }
            return v;
        }
        let first = self.blocks[0].to_range();
        let mut lo = first.0;
        let mut hi = first.1;
        let mut i: usize = 1;
        proof {
            lemma_ranges_empty(v@);
            lemma_covers_take_step(self@, 0);
            lemma_covers_empty(self@.take(0));
            assert forall|a: int|
                seq_covers(self@.take(1), a) <==> ranges_cover(v@, a) || lo <= a <= hi by {
                assert(self@.take(1) == self@.take(0int + 1));
                assert(seq_covers(self@.take(0int + 1), a) <==> seq_covers(
                    self@.take(0int),
                    a,
                ) || self@[0].spec_covers(a));
            }
        }
        while i < n
            invariant
                seq_wf(self@),
                n == self@.len(),
                1 <= i <= n,
                lo <= hi,
                hi as int == self@[i - 1].spec_high(),
                forall|k: int| 0 <= k < v@.len() ==> (#[trigger] v@[k]).0 <= v@[k].1,
                forall|k: int|
                    0 <= k < v@.len() - 1 ==> (#[trigger] v@[k]).1 + 1 < v@[k + 1].0,
                v@.len() > 0 ==> v@[v@.len() - 1].1 + 1 < lo,
                forall|a: int|
                    #![trigger seq_covers(self@.take(i as int), a)]
                    #![trigger ranges_cover(v@, a)]
                    seq_covers(self@.take(i as int), a) <==> ranges_cover(v@, a) || lo <= a
                        <= hi,
            decreases n - i,
        {
            proof {
                lemma_p2_pos(self@[i as int].size as nat);
                lemma_covers_take_step(self@, i as int);
                assert(self@[i - 1].spec_high() < self@[i as int].spec_low());
            }
            let br = self.blocks[i].to_range();
            if br.0 == hi + 1 {
                hi = br.1;
            } else {
                proof {
                    lemma_ranges_push(v@, (lo, hi));
                }
                v.push((lo, hi));
                lo = br.0;
                hi = br.1;
            }
            i += 1;
        }
        proof {
            lemma_ranges_push(v@, (lo, hi));
            assert(self@.take(n as int) =~= self@);
        }
        v.push((lo, hi));
        v
    }

    /// Remove a CIDR block's addresses; `true` means the collection changed.
    ///
    /// Members inside the block are deleted outright.  Otherwise, if a
    /// strictly larger member covers the block, it is taken out and the
    /// parts of its range on either side of the block are decomposed anew
    /// and re-inserted.
    #[verifier::spinoff_prover]
    pub fn remove(&mut self, cidr: &Ipv4Cidr) -> (r: bool)
        requires
            old(self).wf(),
            cidr.wf(),
        ensures
            final(self).wf(),
            forall|a: int|
                #![trigger seq_covers(final(self)@, a)]
                #![trigger seq_covers(old(self)@, a)]
                seq_covers(final(self)@, a) <==> seq_covers(old(self)@, a) && !cidr.spec_covers(
                    a,
                ),
            r == (exists|a: int| #[trigger] seq_covers(old(self)@, a) && cidr.spec_covers(a)),
            !r ==> final(self)@ == old(self)@,
    {
        let ghost orig = self@;
        proof {
            cidr.lemma_high_in_range();
            lemma_p2_pos(cidr.size as nat);
        }
        if self.delete_in_range(cidr) {
            proof {
                let d = choose|d: int|
                    0 <= d < orig.len() && cidr.spec_contains(#[trigger] orig[d]);
                lemma_removed_overlap(orig, *cidr, d);
            }
            return true;
        }
        let found = match self.search_parent(cidr) {
            Some(v) => Some(*v),
            None => None,
        };
        match found {
            None => {
                proof {
                    lemma_no_overlap(orig, *cidr);
                }
                false
            },
            Some(p) => {
                let pi = match self.find_index(p.net) {
                    Some(i) => i,
                    None => {
                        proof {
                            let j = choose|j: int| 0 <= j < self@.len() && self@[j] == p;
                            assert(false);
                        }
                        0
                    },
                };
                proof {
                    Self::lemma_nets_distinct(self@);
                    let j = choose|j: int| 0 <= j < self@.len() && self@[j] == p;
                    assert(self@[pi as int] == p);
                    p.lemma_high_in_range();
                    lemma_p2_pos(p.size as nat);
                    lemma_seq_wf_remove(self@, pi as int);
                    lemma_seq_covers_remove(self@, pi as int);
                }
                self.blocks.remove(pi);
                let ghost base = self@;
                proof {
                    // Members other than `p` never meet the block's range.
                    assert forall|a: int| !(#[trigger] seq_covers(base, a)
                        && cidr.spec_covers(a)) by {
                        if seq_covers(base, a) && cidr.spec_covers(a) {
                            let k = lemma_covers_elim(base, a);
                            let k0 = if k < pi as int {
                                k
                            } else {
                                k + 1
                            };
                            assert(base[k] == orig[k0]);
                            Ipv4Cidr::lemma_overlap_nests(orig[k0], *cidr);
                            if orig[k0].spec_contains(*cidr) {
                                lemma_p2_pos(orig[k0].size as nat);
                                if k0 < pi as int {
                                    assert(orig[k0].spec_high() < orig[pi as int].spec_low());
                                } else {
                                    assert(orig[pi as int].spec_high() < orig[k0].spec_low());
                                }
                            }
                        }
                    }
                }
                let pr = p.to_range();
                let cr = cidr.to_range();
                if pr.0 < cr.0 {
                    let sub = Self::from_range(pr.0, cr.0 - 1);
                    self.insert_all(&sub);
                    proof {
                        assert(forall|a: int|
                            #![trigger seq_covers(self@, a)]
                            seq_covers(self@, a) <==> seq_covers(base, a) || (pr.0 <= a
                                < cr.0));
                    }
                } else {
                    proof {
                        assert(forall|a: int|
                            #![trigger seq_covers(self@, a)]
                            seq_covers(self@, a) <==> seq_covers(base, a) || (pr.0 <= a
                                < cr.0));
                    }
                }
                let ghost mid1 = self@;
                if cr.1 < pr.1 {
                    let sub = Self::from_range(cr.1 + 1, pr.1);
                    self.insert_all(&sub);
                    proof {
                        assert(forall|a: int|
                            #![trigger seq_covers(self@, a)]
                            seq_covers(self@, a) <==> seq_covers(mid1, a) || (cr.1 < a
                                <= pr.1));
                    }
                } else {
                    proof {
                        assert(forall|a: int|
                            #![trigger seq_covers(self@, a)]
                            seq_covers(self@, a) <==> seq_covers(mid1, a) || (cr.1 < a
                                <= pr.1));
                    }
                }
                proof {
                    assert forall|a: int|
                        seq_covers(self@, a) <==> seq_covers(orig, a) && !cidr.spec_covers(
                            a,
                        ) by {
                        assert(seq_covers(orig, a) <==> seq_covers(base, a) || p.spec_covers(a));
                    }
                    lemma_covers_witness(orig, pi as int, cidr.spec_low());
                    assert(seq_covers(orig, cidr.spec_low()) && cidr.spec_covers(
                        cidr.spec_low(),
                    ));
                }
                true
            },
        }
    }

    /// Delete every member fully contained in `cidr`'s range; report whether
    /// anything was deleted.
    fn delete_in_range(&mut self, cidr: &Ipv4Cidr) -> (r: bool)
        requires
            old(self).wf(),
            cidr.wf(),
        ensures
            final(self)@ == remove_contained(old(self)@, *cidr),
            final(self).wf(),
            r == exists|i: int|
                0 <= i < old(self)@.len() && cidr.spec_contains(#[trigger] old(self)@[i]),
            !r ==> final(self)@ == old(self)@,
    {
        let ghost orig = self@;
        proof {
            reveal(remove_contained);
        }
        let n = self.blocks.len();
        let mut out: Vec<Ipv4Cidr> = Vec::new();
        let mut i: usize = 0;
        while i < n
            invariant
                self@ == orig,
                seq_wf(orig),
                cidr.wf(),
                n == orig.len(),
                0 <= i <= n,
                out@ == remove_contained(orig.take(i as int), *cidr),
            decreases n - i,
        {
            let b = self.blocks[i];
            proof {
                reveal(remove_contained);
                assert(orig.take(i + 1).drop_last() =~= orig.take(i as int));
                assert(orig.take(i + 1).last() == orig[i as int]);
            }
            if !cidr.contains_cidr(&b) {
                out.push(b);
            }
            i += 1;
        }
        proof {
            assert(orig.take(n as int) =~= orig);
            lemma_remove_contained_wf(orig, *cidr);
            lemma_remove_contained_len(orig, *cidr);
            lemma_remove_contained_membership(orig, *cidr);
        }
        let changed = out.len() != n;
        self.blocks = out;
        changed
    }

}

/// The base address of the sibling that would merge with `b` into the next
/// larger aligned block: the other half of `b`'s parent.
pub open spec fn pair_base(b: Ipv4Cidr) -> int {
    if b.spec_low() % p2((b.size + 1) as nat) == 0 {
        b.spec_low() + p2(b.size as nat)
    } else {
        b.spec_low() - p2(b.size as nat)
    }
}

impl PartialEq for Ipv4CidrList {
    /// Two collections are equal when they hold the same blocks in order.
    fn eq(&self, other: &Self) -> (r: bool) {
        let n = self.blocks.len();
        if n != other.blocks.len() {
            return false;
        }
        let mut i: usize = 0;
        while i < n
            invariant
                n == self@.len(),
                n == other@.len(),
                0 <= i <= n,
                forall|k: int| 0 <= k < i ==> self@[k] == other@[k],
            decreases n - i,
        {
            if self.blocks[i] != other.blocks[i] {
                return false;
            }
            i += 1;
        }
        proof {
            assert(self@ =~= other@);
        }
        true
    }
}

impl vstd::std_specs::cmp::PartialEqSpecImpl for Ipv4CidrList {
    open spec fn obeys_eq_spec() -> bool {
        true
    }

    open spec fn eq_spec(&self, other: &Self) -> bool {
        self@ == other@
    }
}

/// A surviving ancestor means the deletion pass had nothing to delete: the
/// collection is unchanged and holds a member strictly containing `c`.
proof fn lemma_ancestor_blocks_deletion(orig: Seq<Ipv4Cidr>, c: Ipv4Cidr, i: int)
    requires
        seq_wf(orig),
        c.wf(),
        0 <= i < remove_contained(orig, c).len(),
        remove_contained(orig, c)[i].spec_contains(c),
    ensures
        remove_contained(orig, c) == orig,
        exists|j: int|
            0 <= j < orig.len() && (#[trigger] orig[j]).spec_contains(c) && orig[j] != c,
        forall|a: int| c.spec_covers(a) ==> seq_covers(orig, a),
{
    let rc = remove_contained(orig, c);
    let j = lemma_remove_contained_at(orig, c, i);
    lemma_p2_pos(c.size as nat);
    lemma_p2_pos(orig[j].size as nat);
    assert forall|k: int| 0 <= k < orig.len() implies !c.spec_contains(#[trigger] orig[k]) by {
        if c.spec_contains(orig[k]) {
            lemma_p2_pos(orig[k].size as nat);
            if k != j {
                if k < j {
                    assert(orig[k].spec_high() < orig[j].spec_low());
                } else {
                    assert(orig[j].spec_high() < orig[k].spec_low());
                }
            }
        }
    }
    lemma_remove_contained_all_kept(orig, c);
    assert(orig[j].spec_contains(c) && orig[j] != c);
    assert forall|a: int| c.spec_covers(a) implies seq_covers(orig, a) by {
        lemma_covers_witness(orig, j, a);
    }
}

/// When no member contains `c` and none is contained in it, every member is
/// disjoint from it.
proof fn lemma_disjoint_after_deletion(orig: Seq<Ipv4Cidr>, c: Ipv4Cidr)
    requires
        seq_wf(orig),
        c.wf(),
        forall|i: int|
            0 <= i < remove_contained(orig, c).len() ==> !(#[trigger] remove_contained(orig, c)[
            i]).spec_contains(c),
    ensures
        forall|k: int|
            0 <= k < remove_contained(orig, c).len() ==> ((#[trigger] remove_contained(orig, c)[
            k]).spec_high() < c.spec_low() || c.spec_high() < remove_contained(orig, c)[
            k].spec_low()),
{
    let rc = remove_contained(orig, c);
    assert forall|k: int| 0 <= k < rc.len() implies ((#[trigger] rc[k]).spec_high()
        < c.spec_low() || c.spec_high() < rc[k].spec_low()) by {
        let j = lemma_remove_contained_at(orig, c, k);
        if !(rc[k].spec_high() < c.spec_low() || c.spec_high() < rc[k].spec_low()) {
            Ipv4Cidr::lemma_overlap_nests(rc[k], c);
        }
    }
}

/// Deleting members contained in `c` does not change coverage once `c`'s own
/// addresses are counted in.
proof fn lemma_union_through_deletion(orig: Seq<Ipv4Cidr>, c: Ipv4Cidr)
    requires
        seq_wf(orig),
        c.wf(),
    ensures
        forall|a: int|
            (seq_covers(remove_contained(orig, c), a) || c.spec_covers(a)) <==> (seq_covers(
                orig,
                a,
            ) || c.spec_covers(a)),
{
    let rc = remove_contained(orig, c);
    assert forall|a: int|
        (seq_covers(rc, a) || c.spec_covers(a)) <==> (seq_covers(orig, a)
            || c.spec_covers(a)) by {
        if seq_covers(rc, a) {
            let k = lemma_covers_elim(rc, a);
            let j = lemma_remove_contained_at(orig, c, k);
            lemma_covers_witness(orig, j, a);
        }
        if seq_covers(orig, a) && !c.spec_covers(a) {
            let j = lemma_covers_elim(orig, a);
            assert(!c.spec_contains(orig[j]));
            let k = lemma_remove_contained_keeps(orig, c, j);
            lemma_covers_witness(rc, k, a);
        }
    }
}

/// If after deletion no member contains `c`, then no original member
/// strictly contained it either.
proof fn lemma_no_strict_ancestor(orig: Seq<Ipv4Cidr>, c: Ipv4Cidr)
    requires
        seq_wf(orig),
        c.wf(),
        forall|i: int|
            0 <= i < remove_contained(orig, c).len() ==> !(#[trigger] remove_contained(orig, c)[
            i]).spec_contains(c),
    ensures
        forall|i: int|
            0 <= i < orig.len() ==> !((#[trigger] orig[i]).spec_contains(c) && orig[i] != c),
{
    let rc = remove_contained(orig, c);
    assert forall|i: int| 0 <= i < orig.len() implies !((#[trigger] orig[i]).spec_contains(c)
        && orig[i] != c) by {
        if orig[i].spec_contains(c) && orig[i] != c {
            if c.spec_contains(orig[i]) {
                Ipv4Cidr::lemma_contains_antisym(orig[i], c);
            } else {
                let k = lemma_remove_contained_keeps(orig, c, i);
                assert(rc[k].spec_contains(c));
            }
        }
    }
}

/// When some member is contained in `c`, deletion removes exactly `c`'s
/// addresses from the coverage, and the ranges overlap.
proof fn lemma_removed_overlap(orig: Seq<Ipv4Cidr>, c: Ipv4Cidr, d: int)
    requires
        seq_wf(orig),
        c.wf(),
        0 <= d < orig.len(),
        c.spec_contains(orig[d]),
    ensures
        forall|a: int|
            #![trigger seq_covers(remove_contained(orig, c), a)]
            #![trigger seq_covers(orig, a)]
            seq_covers(remove_contained(orig, c), a) <==> seq_covers(orig, a)
                && !c.spec_covers(a),
        exists|a: int| #[trigger] seq_covers(orig, a) && c.spec_covers(a),
{
    let rc = remove_contained(orig, c);
    lemma_p2_pos(c.size as nat);
    lemma_p2_pos(orig[d].size as nat);
    assert forall|a: int|
        seq_covers(rc, a) <==> seq_covers(orig, a) && !c.spec_covers(a) by {
        if seq_covers(rc, a) {
            let k = lemma_covers_elim(rc, a);
            let j = lemma_remove_contained_at(orig, c, k);
            lemma_covers_witness(orig, j, a);
            if c.spec_covers(a) {
                // orig[j] overlaps c, so they nest; either way contradicts
                // the surviving member or the member inside c.
                Ipv4Cidr::lemma_overlap_nests(orig[j], c);
                if orig[j].spec_contains(c) {
                    lemma_p2_pos(orig[j].size as nat);
                    if j != d {
                        if j < d {
                            assert(orig[j].spec_high() < orig[d].spec_low());
                        } else {
                            assert(orig[d].spec_high() < orig[j].spec_low());
                        }
                    }
                }
            }
        }
        if seq_covers(orig, a) && !c.spec_covers(a) {
            let j = lemma_covers_elim(orig, a);
            assert(!c.spec_contains(orig[j]));
            let k = lemma_remove_contained_keeps(orig, c, j);
            lemma_covers_witness(rc, k, a);
        }
    }
    lemma_covers_witness(orig, d, orig[d].spec_low());
    assert(seq_covers(orig, orig[d].spec_low()) && c.spec_covers(orig[d].spec_low()));
}

/// With no member containing `c` and none contained in it, `c`'s addresses
/// are untouched by the collection.
proof fn lemma_no_overlap(orig: Seq<Ipv4Cidr>, c: Ipv4Cidr)
    requires
        seq_wf(orig),
        c.wf(),
        forall|i: int| 0 <= i < orig.len() ==> !c.spec_contains(#[trigger] orig[i]),
        forall|i: int| 0 <= i < orig.len() ==> !(#[trigger] orig[i]).spec_contains(c),
    ensures
        forall|a: int| !(#[trigger] seq_covers(orig, a) && c.spec_covers(a)),
{
    assert forall|a: int| !(#[trigger] seq_covers(orig, a) && c.spec_covers(a)) by {
        if seq_covers(orig, a) && c.spec_covers(a) {
            let j = lemma_covers_elim(orig, a);
            Ipv4Cidr::lemma_overlap_nests(orig[j], c);
        }
    }
}

/// Compute the sibling's base address: flip the block-index bit at the
/// block's own level.
fn sibling_base(cur: &Ipv4Cidr) -> (pair: u32)
    requires
        cur.wf(),
        cur.size < 32,
    ensures
        pair as int == pair_base(*cur),
{
    let s32 = cur.size as u32;
    let idx = cur.net >> s32;
    proof {
        lemma_p2_pos(cur.size as nat);
        lemma_p2_unfold((cur.size + 1) as nat);
        vstd::bits::lemma_u32_shr_is_div(cur.net, s32);
        lemma_parity_step(cur.net as int, idx as int, cur.size as nat);
        assert(idx & 1 == idx % 2) by (bit_vector);
        cur.lemma_high_in_range();
        lemma_p2_values();
        lemma_p2_divides((cur.size + 1) as nat, 32);
        lemma_fundamental_div_mod(cur.net as int, p2(cur.size as nat));
    }
    if idx & 1 == 0 {
        proof {
            assert(idx <= 0xFFFFFFFEu32) by (bit_vector)
                requires
                    idx & 1 == 0u32,
            ;
            lemma_multiple_step(cur.net as int, 0x100000000, p2((cur.size + 1) as nat));
            assert((idx + 1) * p2(cur.size as nat) == idx * p2(cur.size as nat) + p2(
                cur.size as nat,
            )) by (nonlinear_arith);
            vstd::bits::lemma_u32_shl_is_mul((idx + 1) as u32, s32);
        }
        (idx + 1) << s32
    } else {
        proof {
            assert(idx >= 1);
            assert((idx - 1) * p2(cur.size as nat) == idx * p2(cur.size as nat) - p2(
                cur.size as nat,
            )) by (nonlinear_arith);
            vstd::bits::lemma_u32_shl_is_mul((idx - 1) as u32, s32);
        }
        (idx - 1) << s32
    }
}

/// Merging a block with its stored sibling gives the well-formed parent
/// block, which covers exactly the two halves and stays disjoint from the
/// remaining members.
proof fn lemma_merge_parent(
    pre: Seq<Ipv4Cidr>,
    j: int,
    cur: Ipv4Cidr,
    pb: Ipv4Cidr,
    parent: Ipv4Cidr,
)
    requires
        seq_wf(pre),
        cur.wf(),
        cur.size < 32,
        0 <= j < pre.len(),
        pb == pre[j],
        pb.net as int == pair_base(cur),
        pb.size == cur.size,
        parent.size == cur.size + 1,
        parent.net as int == if cur.spec_low() % p2((cur.size + 1) as nat) == 0 {
            cur.spec_low()
        } else {
            pair_base(cur)
        },
        forall|k: int|
            0 <= k < pre.len() ==> ((#[trigger] pre[k]).spec_high() < cur.spec_low()
                || cur.spec_high() < pre[k].spec_low()),
    ensures
        parent.wf(),
        parent.spec_contains(cur),
        forall|a: int| parent.spec_covers(a) <==> cur.spec_covers(a) || pb.spec_covers(a),
        forall|k: int|
            0 <= k < pre.remove(j).len() ==> ((#[trigger] pre.remove(j)[k]).spec_high()
                < parent.spec_low() || parent.spec_high() < pre.remove(j)[k].spec_low()),
{
    let s = cur.size as nat;
    lemma_p2_pos(s);
    lemma_p2_unfold((s + 1) as nat);
    lemma_fundamental_div_mod(cur.net as int, p2(s));
    let q = cur.net as int / p2(s);
    vstd::arithmetic::div_mod::lemma_mod_bound(q, 2);
    lemma_parity_step(cur.net as int, q, s);
    if cur.spec_low() % p2((s + 1) as nat) == 0 {
        // cur is the left half; the parent starts where cur does.
        lemma_fundamental_div_mod(cur.net as int, p2((s + 1) as nat));
        assert(parent.wf());
    } else {
        // cur is the right half; the parent starts at the sibling.
        assert(q % 2 == 1);
        assert(cur.net as int % p2((s + 1) as nat) == p2(s));
        lemma_fundamental_div_mod(cur.net as int, p2((s + 1) as nat));
        let h = cur.net as int / p2((s + 1) as nat);
        assert(parent.net as int == p2((s + 1) as nat) * h);
        vstd::arithmetic::div_mod::lemma_mod_multiples_basic(h, p2((s + 1) as nat));
        assert(p2((s + 1) as nat) * h == h * p2((s + 1) as nat)) by (nonlinear_arith);
        assert(parent.wf());
    }
    assert(parent.spec_contains(cur));
    assert(forall|a: int| parent.spec_covers(a) <==> cur.spec_covers(a) || pb.spec_covers(a));
    let t = pre.remove(j);
    assert forall|k: int| 0 <= k < t.len() implies ((#[trigger] t[k]).spec_high()
        < parent.spec_low() || parent.spec_high() < t[k].spec_low()) by {
        let k0 = if k < j {
            k
        } else {
            k + 1
        };
        assert(t[k] == pre[k0]);
        lemma_p2_pos(pre[k0].size as nat);
        lemma_p2_pos(pb.size as nat);
        if k0 < j {
            assert(pre[k0].spec_high() < pb.spec_low());
        } else {
            assert(pb.spec_high() < pre[k0].spec_low());
        }
    }
}

/// A member can pair with `b` only if it sits exactly at `pair_base(b)` with
/// `b`'s own size.
proof fn lemma_no_sibling(s: Seq<Ipv4Cidr>, b: Ipv4Cidr)
    requires
        seq_wf(s),
        b.wf(),
        b.size < 32,
        forall|k: int|
            0 <= k < s.len() ==> ((#[trigger] s[k]).net as int != pair_base(b) || s[k].size
                != b.size),
    ensures
        forall|k: int|
            0 <= k < s.len() ==> !siblings(#[trigger] s[k], b) && !siblings(b, #[trigger] s[k]),
{
    let sz = b.size as nat;
    lemma_p2_pos(sz);
    lemma_p2_unfold((sz + 1) as nat);
    assert forall|k: int| 0 <= k < s.len() implies !siblings(#[trigger] s[k], b) && !siblings(
        b,
        s[k],
    ) by {
        if siblings(s[k], b) {
            // s[k] is the left half: its base is aligned one level up and b
            // is not, so the pair base points left at s[k].
            lemma_fundamental_div_mod(s[k].net as int, p2((sz + 1) as nat));
            let h = s[k].net as int / p2((sz + 1) as nat);
            assert(s[k].net as int == p2((sz + 1) as nat) * h);
            assert(b.net as int == h * p2((sz + 1) as nat) + p2(sz)) by (nonlinear_arith)
                requires
                    s[k].net as int == p2((sz + 1) as nat) * h,
                    b.net as int == s[k].net as int + p2(sz),
            ;
            vstd::arithmetic::div_mod::lemma_fundamental_div_mod_converse(
                b.net as int,
                p2((sz + 1) as nat),
                h,
                p2(sz),
            );
            assert(b.net as int % p2((sz + 1) as nat) == p2(sz));
            assert(pair_base(b) == s[k].net as int);
        }
        if siblings(b, s[k]) {
            assert(pair_base(b) == s[k].net as int);
        }
    }
}

/// Removing one member splits a sequence's coverage into the rest and that
/// member's own addresses.
pub proof fn lemma_seq_covers_remove(s: Seq<Ipv4Cidr>, j: int)
    requires
        0 <= j < s.len(),
    ensures
        forall|a: int|
            seq_covers(s, a) <==> seq_covers(s.remove(j), a) || (#[trigger] s[j]).spec_covers(a),
{
    reveal(seq_covers);
    let t = s.remove(j);
    assert forall|a: int|
        seq_covers(s, a) <==> seq_covers(t, a) || (#[trigger] s[j]).spec_covers(a) by {
        if seq_covers(s, a) {
            let i = choose|i: int| 0 <= i < s.len() && (#[trigger] s[i]).spec_covers(a);
            if i < j {
                assert(t[i] == s[i]);
                assert(seq_covers(t, a));
            } else if i == j {
            } else {
                assert(t[i - 1] == s[i]);
                assert(seq_covers(t, a));
            }
        }
        if seq_covers(t, a) {
            let i = choose|i: int| 0 <= i < t.len() && (#[trigger] t[i]).spec_covers(a);
            if i < j {
                assert(s[i] == t[i]);
            } else {
                assert(s[i + 1] == t[i]);
            }
            assert(seq_covers(s, a));
        }
        if s[j].spec_covers(a) {
            assert(seq_covers(s, a));
        }
    }
}

/// Removing a member keeps the collection invariant.
pub proof fn lemma_seq_wf_remove(s: Seq<Ipv4Cidr>, j: int)
    requires
        seq_wf(s),
        0 <= j < s.len(),
    ensures
        seq_wf(s.remove(j)),
{
    let t = s.remove(j);
    assert forall|i: int| 0 <= i < t.len() implies (#[trigger] t[i]).wf() by {
        if i < j {
            assert(t[i] == s[i]);
        } else {
            assert(t[i] == s[i + 1]);
        }
    }
    assert forall|i: int, k: int| 0 <= i < k < t.len() implies (#[trigger] t[i]).spec_high() < (
    #[trigger] t[k]).spec_low() by {
        let i0 = if i < j { i } else { i + 1 };
        let k0 = if k < j { k } else { k + 1 };
        assert(t[i] == s[i0] && t[k] == s[k0]);
        assert(s[i0].spec_high() < s[k0].spec_low());
    }
    assert forall|i: int, k: int|
        0 <= i < t.len() && 0 <= k < t.len() && i != k implies !siblings(
        #[trigger] t[i],
        #[trigger] t[k],
    ) by {
        let i0 = if i < j { i } else { i + 1 };
        let k0 = if k < j { k } else { k + 1 };
        assert(t[i] == s[i0] && t[k] == s[k0]);
        assert(!siblings(s[i0], s[k0]));
    }
}

/// Inserting a block adds exactly its addresses to a sequence's coverage.
pub proof fn lemma_seq_covers_insert(s: Seq<Ipv4Cidr>, pos: int, b: Ipv4Cidr)
    requires
        0 <= pos <= s.len(),
    ensures
        forall|a: int|
            seq_covers(s.insert(pos, b), a) <==> seq_covers(s, a) || b.spec_covers(a),
{
    reveal(seq_covers);
    let t = s.insert(pos, b);
    assert forall|a: int| seq_covers(t, a) <==> seq_covers(s, a) || b.spec_covers(a) by {
        if seq_covers(t, a) {
            let i = choose|i: int| 0 <= i < t.len() && (#[trigger] t[i]).spec_covers(a);
            if i < pos {
                assert(s[i] == t[i]);
                assert(seq_covers(s, a));
            } else if i == pos {
                assert(b.spec_covers(a));
            } else {
                assert(s[i - 1] == t[i]);
                assert(seq_covers(s, a));
            }
        }
        if seq_covers(s, a) {
            let i = choose|i: int| 0 <= i < s.len() && (#[trigger] s[i]).spec_covers(a);
            if i < pos {
                assert(t[i] == s[i]);
            } else {
                assert(t[i + 1] == s[i]);
            }
            assert(seq_covers(t, a));
        }
        if b.spec_covers(a) {
            assert(t[pos] == b);
            assert(seq_covers(t, a));
        }
    }
}

/// Inserting a block that fits strictly between its neighbours and pairs
/// with none of them keeps the collection invariant.
pub proof fn lemma_seq_wf_insert(s: Seq<Ipv4Cidr>, pos: int, b: Ipv4Cidr)
    requires
        seq_wf(s),
        b.wf(),
        0 <= pos <= s.len(),
        forall|k: int| 0 <= k < pos ==> (#[trigger] s[k]).spec_high() < b.spec_low(),
        forall|k: int| pos <= k < s.len() ==> b.spec_high() < (#[trigger] s[k]).spec_low(),
        forall|k: int|
            0 <= k < s.len() ==> !siblings(#[trigger] s[k], b) && !siblings(b, #[trigger] s[k]),
    ensures
        seq_wf(s.insert(pos, b)),
{
    let t = s.insert(pos, b);
    assert forall|i: int| 0 <= i < t.len() implies (#[trigger] t[i]).wf() by {
        if i < pos {
            assert(t[i] == s[i]);
        } else if i == pos {
            assert(t[i] == b);
        } else {
            assert(t[i] == s[i - 1]);
        }
    }
    assert forall|i: int, k: int| 0 <= i < k < t.len() implies (#[trigger] t[i]).spec_high() < (
    #[trigger] t[k]).spec_low() by {
        if i == pos {
            assert(t[i] == b && t[k] == s[k - 1]);
        } else if k == pos {
            assert(t[i] == s[i] && t[k] == b);
        } else {
            let i0 = if i < pos { i } else { i - 1 };
            let k0 = if k < pos { k } else { k - 1 };
            assert(t[i] == s[i0] && t[k] == s[k0]);
            if i0 < k0 {
                assert(s[i0].spec_high() < s[k0].spec_low());
            } else {
                // i < pos <= k with k - 1 < pos is impossible
                assert(false);
            }
        }
    }
    assert forall|i: int, k: int|
        0 <= i < t.len() && 0 <= k < t.len() && i != k implies !siblings(
        #[trigger] t[i],
        #[trigger] t[k],
    ) by {
        if i == pos && k == pos {
        } else if i == pos {
            let k0 = if k < pos { k } else { k - 1 };
            assert(t[k] == s[k0]);
            assert(!siblings(b, s[k0]));
        } else if k == pos {
            let i0 = if i < pos { i } else { i - 1 };
            assert(t[i] == s[i0]);
            assert(!siblings(s[i0], b));
        } else {
            let i0 = if i < pos { i } else { i - 1 };
            let k0 = if k < pos { k } else { k - 1 };
            assert(t[i] == s[i0] && t[k] == s[k0]);
            assert(!siblings(s[i0], s[k0]));
        }
    }
}

/// `remove_contained` preserves the collection invariant.
pub proof fn lemma_remove_contained_wf(s: Seq<Ipv4Cidr>, c: Ipv4Cidr)
    requires
        seq_wf(s),
    ensures
        seq_wf(remove_contained(s, c)),
{
    let p = |x: Ipv4Cidr, y: Ipv4Cidr| x.spec_high() < y.spec_low() && !siblings(x, y)
        && !siblings(y, x);
    lemma_remove_contained_pairwise(s, c, p);
    lemma_remove_contained_membership(s, c);
    let res = remove_contained(s, c);
    assert forall|k: int| 0 <= k < res.len() implies (#[trigger] res[k]).wf() by {
        let j = choose|j: int| 0 <= j < s.len() && #[trigger] res[k] == s[j] && !c.spec_contains(s[j]);
        assert(s[j].wf());
    }
    assert forall|i: int, j: int|
        0 <= i < res.len() && 0 <= j < res.len() && i != j implies !siblings(
        #[trigger] res[i],
        #[trigger] res[j],
    ) by {
        if i < j {
            assert(p(res[i], res[j]));
        } else {
            assert(p(res[j], res[i]));
        }
    }
}

/// The members of `s` that are not contained in `c`, in order.
///
/// Opaque for the same reason as `seq_covers`: the lemmas below say all that
/// callers need.
#[verifier::opaque]
pub open spec fn remove_contained(s: Seq<Ipv4Cidr>, c: Ipv4Cidr) -> Seq<Ipv4Cidr>
    decreases s.len(),
{
    if s.len() == 0 {
        Seq::empty()
    } else {
        let rest = remove_contained(s.drop_last(), c);
        if c.spec_contains(s.last()) {
            rest
        } else {
            rest.push(s.last())
        }
    }
}

/// Every survivor of `remove_contained` is a member of `s` that `c` does not
/// contain, and every such member survives.
pub proof fn lemma_remove_contained_membership(s: Seq<Ipv4Cidr>, c: Ipv4Cidr)
    ensures
        remove_contained(s, c).len() <= s.len(),
        forall|k: int|
            0 <= k < remove_contained(s, c).len() ==> exists|j: int|
                0 <= j < s.len() && #[trigger] remove_contained(s, c)[k] == s[j]
                    && !c.spec_contains(s[j]),
        forall|j: int|
            0 <= j < s.len() && !c.spec_contains(#[trigger] s[j]) ==> exists|k: int|
                0 <= k < remove_contained(s, c).len() && remove_contained(s, c)[k] == s[j],
    decreases s.len(),
{
    reveal(remove_contained);
    if s.len() > 0 {
        let d = s.drop_last();
        lemma_remove_contained_membership(d, c);
        let res = remove_contained(s, c);
        let restr = remove_contained(d, c);
        assert forall|k: int| 0 <= k < res.len() implies exists|j: int|
            0 <= j < s.len() && #[trigger] res[k] == s[j] && !c.spec_contains(s[j]) by {
            if k < restr.len() {
                let j = choose|j: int|
                    0 <= j < d.len() && #[trigger] restr[k] == d[j] && !c.spec_contains(d[j]);
                assert(res[k] == s[j] && !c.spec_contains(s[j]));
            } else {
                assert(res[k] == s[s.len() - 1]);
            }
        }
        assert forall|j: int| 0 <= j < s.len() && !c.spec_contains(#[trigger] s[j]) implies exists|
            k: int,
        | 0 <= k < res.len() && res[k] == s[j] by {
            if j < s.len() - 1 {
                assert(d[j] == s[j]);
                let k = choose|k: int| 0 <= k < restr.len() && restr[k] == d[j];
                assert(res[k] == s[j]);
            } else {
                assert(res[res.len() - 1] == s[j]);
            }
        }
    }
}

/// Each survivor of `remove_contained` sits somewhere in `s`; name the spot.
proof fn lemma_remove_contained_at(s: Seq<Ipv4Cidr>, c: Ipv4Cidr, k: int) -> (j: int)
    requires
        0 <= k < remove_contained(s, c).len(),
    ensures
        0 <= j < s.len(),
        remove_contained(s, c)[k] == s[j],
        !c.spec_contains(s[j]),
    decreases s.len(),
{
    reveal(remove_contained);
    let rest = remove_contained(s.drop_last(), c);
    if !c.spec_contains(s.last()) && k == rest.len() {
        s.len() - 1
    } else {
        lemma_remove_contained_at(s.drop_last(), c, k)
    }
}

/// Each member that `c` does not contain survives; name where.
proof fn lemma_remove_contained_keeps(s: Seq<Ipv4Cidr>, c: Ipv4Cidr, j: int) -> (k: int)
    requires
        0 <= j < s.len(),
        !c.spec_contains(s[j]),
    ensures
        0 <= k < remove_contained(s, c).len(),
        remove_contained(s, c)[k] == s[j],
    decreases s.len(),
{
    reveal(remove_contained);
    let rest = remove_contained(s.drop_last(), c);
    if j == s.len() - 1 {
        rest.len() as int
    } else {
        lemma_remove_contained_keeps(s.drop_last(), c, j)
    }
}

/// If `c` contains no member at all, nothing is removed.
proof fn lemma_remove_contained_all_kept(s: Seq<Ipv4Cidr>, c: Ipv4Cidr)
    requires
        forall|i: int| 0 <= i < s.len() ==> !c.spec_contains(#[trigger] s[i]),
    ensures
        remove_contained(s, c) == s,
    decreases s.len(),
{
    reveal(remove_contained);
    if s.len() > 0 {
        assert forall|i: int| 0 <= i < s.drop_last().len() implies !c.spec_contains(
            #[trigger] s.drop_last()[i],
        ) by {
            assert(s.drop_last()[i] == s[i]);
        }
        lemma_remove_contained_all_kept(s.drop_last(), c);
        assert(remove_contained(s, c) =~= s);
    } else {
        assert(remove_contained(s, c) =~= s);
    }
}

/// Any property of ordered pairs of members survives `remove_contained`.
pub proof fn lemma_remove_contained_pairwise(
    s: Seq<Ipv4Cidr>,
    c: Ipv4Cidr,
    p: spec_fn(Ipv4Cidr, Ipv4Cidr) -> bool,
)
    requires
        forall|i: int, j: int| 0 <= i < j < s.len() ==> p(#[trigger] s[i], #[trigger] s[j]),
    ensures
        forall|i: int, j: int|
            0 <= i < j < remove_contained(s, c).len() ==> p(
                #[trigger] remove_contained(s, c)[i],
                #[trigger] remove_contained(s, c)[j],
            ),
    decreases s.len(),
{
    reveal(remove_contained);
    if s.len() > 0 {
        let d = s.drop_last();
        lemma_remove_contained_pairwise(d, c, p);
        lemma_remove_contained_membership(d, c);
        let res = remove_contained(s, c);
        let restr = remove_contained(d, c);
        assert forall|i: int, j: int| 0 <= i < j < res.len() implies p(
            #[trigger] res[i],
            #[trigger] res[j],
        ) by {
            if j < restr.len() {
                assert(p(restr[i], restr[j]));
            } else {
                // res ends with s.last(); res[i] is a member of d.
                assert(res[j] == s[s.len() - 1]);
                let m = choose|m: int|
                    0 <= m < d.len() && #[trigger] restr[i] == d[m] && !c.spec_contains(d[m]);
                assert(p(s[m], s[s.len() - 1]));
            }
        }
    }
}

/// If `c` contains no member, `remove_contained` keeps the sequence intact;
/// in general it shrinks the sequence exactly when some member is contained.
pub proof fn lemma_remove_contained_len(s: Seq<Ipv4Cidr>, c: Ipv4Cidr)
    ensures
        remove_contained(s, c).len() <= s.len(),
        remove_contained(s, c).len() == s.len() <==> (forall|i: int|
            0 <= i < s.len() ==> !c.spec_contains(#[trigger] s[i])),
        remove_contained(s, c).len() == s.len() ==> remove_contained(s, c) == s,
    decreases s.len(),
{
    reveal(remove_contained);
    if s.len() > 0 {
        let d = s.drop_last();
        let res = remove_contained(s, c);
        let restr = remove_contained(d, c);
        lemma_remove_contained_len(d, c);
        if res.len() == s.len() {
            // The last member was kept and the rest survived whole.
            assert(!c.spec_contains(s.last()));
            assert(restr.len() == d.len());
            assert(res =~= s);
            assert forall|i: int| 0 <= i < s.len() implies !c.spec_contains(#[trigger] s[i]) by {
                if i < s.len() - 1 {
                    assert(s[i] == d[i]);
                }
            }
        } else {
            if forall|i: int| 0 <= i < s.len() ==> !c.spec_contains(#[trigger] s[i]) {
                assert forall|i: int| 0 <= i < d.len() implies !c.spec_contains(
                    #[trigger] d[i],
                ) by {
                    assert(d[i] == s[i]);
                }
                assert(restr.len() == d.len());
                assert(!c.spec_contains(s.last()));
                assert(res.len() == s.len());
            }
        }
    }
}

/// From the quotient `q = x / 2^s` of an aligned `x`, the parity of `q`
/// decides `x`'s remainder one level up: even means `x % 2^(s+1) == 0`, odd
/// means `x % 2^(s+1) == 2^s`, and in both cases `x / 2^(s+1) == q / 2`.
proof fn lemma_parity_step(x: int, q: int, s: nat)
    requires
        x >= 0,
        x % p2(s) == 0,
        q == x / p2(s),
    ensures
        q % 2 == 0 ==> x % p2((s + 1) as nat) == 0 && x == p2((s + 1) as nat) * (q / 2),
        q % 2 == 1 ==> x % p2((s + 1) as nat) == p2(s) && x / p2((s + 1) as nat) == q / 2,
{
    lemma_p2_pos(s);
    lemma_p2_unfold((s + 1) as nat);
    lemma_fundamental_div_mod(x, p2(s));
    lemma_fundamental_div_mod(q, 2);
    let h = q / 2;
    assert(x == p2(s) * q);
    assert(q == 2 * h + q % 2);
    if q % 2 == 0 {
        assert(x == p2((s + 1) as nat) * h) by (nonlinear_arith)
            requires
                x == p2(s) * q,
                q == 2 * h,
                p2((s + 1) as nat) == 2 * p2(s),
        ;
        vstd::arithmetic::div_mod::lemma_mod_multiples_basic(h, p2((s + 1) as nat));
        assert(p2((s + 1) as nat) * h == h * p2((s + 1) as nat)) by (nonlinear_arith);
    } else {
        assert(q % 2 == 1) by {
            vstd::arithmetic::div_mod::lemma_mod_bound(q, 2);
        }
        assert(x == p2((s + 1) as nat) * h + p2(s)) by (nonlinear_arith)
            requires
                x == p2(s) * q,
                q == 2 * h + 1,
                p2((s + 1) as nat) == 2 * p2(s),
        ;
        vstd::arithmetic::div_mod::lemma_fundamental_div_mod_converse(
            x,
            p2((s + 1) as nat),
            h,
            p2(s),
        );
    }
}

} // verus!
