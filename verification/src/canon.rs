//! Canonical form is unique.
//!
//! A well-formed collection — sorted, disjoint, with no unmerged sibling
//! pair — is determined by the set of addresses it holds.  This module
//! proves that theorem and the collection-level laws that follow from it.

use crate::arith::{
    lemma_aligned_coarse_to_fine, lemma_p2_divides, lemma_p2_increases, lemma_p2_pos,
    lemma_p2_unfold, p2,
};
use crate::block::Ipv4Cidr;
use crate::list::{
    lemma_covers_elim, lemma_covers_empty, lemma_covers_witness, lemma_ranges_elim,
    lemma_ranges_witness, ranges_cover, seq_covers, seq_wf, siblings, Ipv4CidrList,
};
use vstd::prelude::*;

verus! {

/// A covered address directly after a member starts the very next member.
proof fn lemma_next_member(s: Seq<Ipv4Cidr>, i: int, x: int)
    requires
        seq_wf(s),
        0 <= i < s.len(),
        x == s[i].spec_high() + 1,
        seq_covers(s, x),
    ensures
        i + 1 < s.len(),
        s[i + 1].spec_low() == x,
{
    let k = lemma_covers_elim(s, x);
    lemma_p2_pos(s[i].size as nat);
    lemma_p2_pos(s[k].size as nat);
    if k < i {
        assert(s[k].spec_high() < s[i].spec_low());
    } else if k == i {
    } else {
        if k > i + 1 {
            lemma_p2_pos(s[i + 1].size as nat);
            assert(s[i].spec_high() < s[i + 1].spec_low());
            assert(s[i + 1].spec_high() < s[k].spec_low());
        } else {
            assert(s[i].spec_high() < s[i + 1].spec_low());
        }
    }
}

/// A member that is the left half of its parent always leaves a hole
/// somewhere in the parent's range: otherwise the half next to it would
/// merge, or chain down forever.
proof fn lemma_left_child_gap(s: Seq<Ipv4Cidr>, i: int) -> (a: int)
    requires
        seq_wf(s),
        0 <= i < s.len(),
        s[i].size < 32,
        s[i].spec_low() % p2((s[i].size + 1) as nat) == 0,
    ensures
        s[i].spec_low() <= a < s[i].spec_low() + p2((s[i].size + 1) as nat),
        !seq_covers(s, a),
    decreases s[i].size,
{
    let b = s[i];
    let sz = b.size as nat;
    let lo = b.spec_low();
    lemma_p2_pos(sz);
    lemma_p2_unfold((sz + 1) as nat);
    let x = lo + p2(sz);
    if !seq_covers(s, x) {
        return x;
    }
    lemma_next_member(s, i, x);
    let c = s[i + 1];
    let t = c.size as nat;
    // The next member starts exactly at the sibling's base, and its size is
    // at most the sibling's, else its alignment would contradict `x`'s.
    if t >= sz + 1 {
        lemma_aligned_coarse_to_fine(c.spec_low(), (sz + 1) as nat, t);
        assert(x % p2((sz + 1) as nat) == 0);
        assert((lo + p2(sz)) % p2((sz + 1) as nat) == p2(sz)) by {
            vstd::arithmetic::div_mod::lemma_fundamental_div_mod(lo, p2((sz + 1) as nat));
            let h = lo / p2((sz + 1) as nat);
            assert(x == h * p2((sz + 1) as nat) + p2(sz)) by (nonlinear_arith)
                requires
                    lo == p2((sz + 1) as nat) * h,
                    x == lo + p2(sz),
            ;
            vstd::arithmetic::div_mod::lemma_fundamental_div_mod_converse(
                x,
                p2((sz + 1) as nat),
                h,
                p2(sz),
            );
        }
        assert(false);
    }
    if t == sz {
        assert(siblings(s[i], s[i + 1]));
        assert(false);
    }
    // t < sz: the next member is itself a left child; its own hole lies
    // inside this parent's range.
    lemma_p2_unfold((t + 1) as nat);
    lemma_p2_increases((t + 1) as nat, sz);
    assert(c.spec_low() % p2((t + 1) as nat) == 0) by {
        lemma_aligned_coarse_to_fine(lo, (t + 1) as nat, (sz + 1) as nat);
        lemma_p2_divides((t + 1) as nat, sz);
        lemma_p2_pos((t + 1) as nat);
        vstd::arithmetic::div_mod::lemma_add_mod_noop(lo, p2(sz), p2((t + 1) as nat));
        vstd::arithmetic::div_mod::lemma_small_mod(0nat, vstd::arithmetic::power2::pow2((t
            + 1) as nat));
        assert(p2(sz) % p2((t + 1) as nat) == 0) by {
            lemma_p2_divides((t + 1) as nat, sz);
        }
    }
    let a2 = lemma_left_child_gap(s, i + 1);
    assert(c.spec_low() + p2((t + 1) as nat) <= lo + p2((sz + 1) as nat));
    a2
}

/// Two well-formed collections holding the same addresses begin with the
/// same block.
proof fn lemma_first_blocks_equal(s1: Seq<Ipv4Cidr>, s2: Seq<Ipv4Cidr>)
    requires
        seq_wf(s1),
        seq_wf(s2),
        s1.len() > 0,
        s2.len() > 0,
        forall|a: int|
            #![trigger seq_covers(s1, a)]
            #![trigger seq_covers(s2, a)]
            seq_covers(s1, a) == seq_covers(s2, a),
    ensures
        s1[0] == s2[0],
{
    lemma_p2_pos(s1[0].size as nat);
    lemma_p2_pos(s2[0].size as nat);
    // The first members start at the least covered address.
    lemma_covers_witness(s1, 0, s1[0].spec_low());
    lemma_covers_witness(s2, 0, s2[0].spec_low());
    let k1 = lemma_covers_elim(s2, s1[0].spec_low());
    let k2 = lemma_covers_elim(s1, s2[0].spec_low());
    lemma_p2_pos(s2[k1].size as nat);
    lemma_p2_pos(s1[k2].size as nat);
    if k1 > 0 {
        assert(s2[0].spec_high() < s2[k1].spec_low());
    }
    if k2 > 0 {
        assert(s1[0].spec_high() < s1[k2].spec_low());
    }
    assert(s1[0].spec_low() == s2[0].spec_low());
    // Equal sizes: a smaller first block would be a left child whose hole
    // is nonetheless covered by the other collection.
    if s1[0].size < s2[0].size {
        lemma_smaller_first_impossible(s1, s2);
    }
    if s2[0].size < s1[0].size {
        lemma_smaller_first_impossible(s2, s1);
    }
    assert(s1[0].net == s2[0].net);
    assert(s1[0] == s2[0]);
}

/// A first block smaller than the other collection's first block is
/// impossible when both start at the same address and cover the same set.
proof fn lemma_smaller_first_impossible(s1: Seq<Ipv4Cidr>, s2: Seq<Ipv4Cidr>)
    requires
        seq_wf(s1),
        seq_wf(s2),
        s1.len() > 0,
        s2.len() > 0,
        s1[0].spec_low() == s2[0].spec_low(),
        s1[0].size < s2[0].size,
        forall|a: int|
            #![trigger seq_covers(s1, a)]
            #![trigger seq_covers(s2, a)]
            seq_covers(s1, a) == seq_covers(s2, a),
    ensures
        s1[0].size >= s2[0].size,
{
    let sz1 = s1[0].size as nat;
    let sz2 = s2[0].size as nat;
    lemma_p2_pos(sz1);
    lemma_p2_pos(sz2);
    lemma_p2_increases((sz1 + 1) as nat, sz2);
    lemma_aligned_coarse_to_fine(s2[0].spec_low(), (sz1 + 1) as nat, sz2);
    let a = lemma_left_child_gap(s1, 0);
    assert(a <= s2[0].spec_high());
    lemma_covers_witness(s2, 0, a);
    assert(false);
}

/// Dropping the first member removes exactly its addresses.
proof fn lemma_tail_covers(s: Seq<Ipv4Cidr>)
    requires
        seq_wf(s),
        s.len() > 0,
    ensures
        seq_wf(s.drop_first()),
        forall|a: int|
            #![trigger seq_covers(s.drop_first(), a)]
            #![trigger seq_covers(s, a)]
            seq_covers(s.drop_first(), a) <==> seq_covers(s, a) && !s[0].spec_covers(a),
{
    let t = s.drop_first();
    assert forall|i: int| 0 <= i < t.len() implies (#[trigger] t[i]).wf() by {
        assert(t[i] == s[i + 1]);
    }
    assert forall|i: int, j: int| 0 <= i < j < t.len() implies (#[trigger] t[i]).spec_high() < (
    #[trigger] t[j]).spec_low() by {
        assert(t[i] == s[i + 1] && t[j] == s[j + 1]);
        assert(s[i + 1].spec_high() < s[j + 1].spec_low());
    }
    assert forall|i: int, j: int|
        0 <= i < t.len() && 0 <= j < t.len() && i != j implies !siblings(
        #[trigger] t[i],
        #[trigger] t[j],
    ) by {
        assert(t[i] == s[i + 1] && t[j] == s[j + 1]);
        assert(!siblings(s[i + 1], s[j + 1]));
    }
    assert forall|a: int|
        seq_covers(t, a) <==> seq_covers(s, a) && !s[0].spec_covers(a) by {
        lemma_p2_pos(s[0].size as nat);
        if seq_covers(t, a) {
            let k = lemma_covers_elim(t, a);
            assert(t[k] == s[k + 1]);
            lemma_covers_witness(s, k + 1, a);
            assert(s[0].spec_high() < s[k + 1].spec_low());
            lemma_p2_pos(s[k + 1].size as nat);
        }
        if seq_covers(s, a) && !s[0].spec_covers(a) {
            let k = lemma_covers_elim(s, a);
            assert(k != 0);
            assert(t[k - 1] == s[k]);
            lemma_covers_witness(t, k - 1, a);
        }
    }
}

/// Canonical form is unique: two well-formed collections holding exactly
/// the same addresses are the same sequence of blocks.
pub proof fn lemma_canonical_unique(s1: Seq<Ipv4Cidr>, s2: Seq<Ipv4Cidr>)
    requires
        seq_wf(s1),
        seq_wf(s2),
        forall|a: int|
            #![trigger seq_covers(s1, a)]
            #![trigger seq_covers(s2, a)]
            seq_covers(s1, a) == seq_covers(s2, a),
    ensures
        s1 == s2,
    decreases s1.len(),
{
    if s1.len() == 0 {
        if s2.len() > 0 {
            lemma_p2_pos(s2[0].size as nat);
            lemma_covers_witness(s2, 0, s2[0].spec_low());
            lemma_covers_empty(s1);
            assert(false);
        }
        assert(s1 =~= s2);
    } else if s2.len() == 0 {
        lemma_p2_pos(s1[0].size as nat);
        lemma_covers_witness(s1, 0, s1[0].spec_low());
        lemma_covers_empty(s2);
        assert(false);
    } else {
        lemma_first_blocks_equal(s1, s2);
        lemma_tail_covers(s1);
        lemma_tail_covers(s2);
        let t1 = s1.drop_first();
        let t2 = s2.drop_first();
        assert forall|a: int|
            #![trigger seq_covers(t1, a)]
            #![trigger seq_covers(t2, a)]
            seq_covers(t1, a) == seq_covers(t2, a) by {}
        lemma_canonical_unique(t1, t2);
        assert forall|k: int| 0 <= k < s1.len() implies s1[k] == s2[k] by {
            if k > 0 {
                assert(t1[k - 1] == s1[k] && t2[k - 1] == s2[k]);
            }
        }
        assert(s1 =~= s2);
    }
}

/// Canonical collections are determined by the addresses they hold: two
/// well-formed collections covering the same addresses are equal.  In
/// particular, removing a block from a collection and inserting it back
/// restores the collection that inserting it directly would give.
pub proof fn lemma_canonical_by_coverage(l1: Ipv4CidrList, l2: Ipv4CidrList)
    requires
        l1.wf(),
        l2.wf(),
        forall|a: int| #[trigger] l1.covers(a) == l2.covers(a),
    ensures
        l1@ == l2@,
{
    assert forall|a: int|
        #![trigger seq_covers(l1@, a)]
        #![trigger seq_covers(l2@, a)]
        seq_covers(l1@, a) == seq_covers(l2@, a) by {
        assert(l1.covers(a) == l2.covers(a));
    }
    lemma_canonical_unique(l1@, l2@);
}

/// A well-formed collection holding exactly one aligned block's addresses
/// is that one block: inserting every enclosing block of an address, for
/// example, collapses to a single member.
pub proof fn lemma_single_block_canonical(l: Ipv4CidrList, b: Ipv4Cidr)
    requires
        l.wf(),
        b.wf(),
        forall|a: int| #[trigger] l.covers(a) == b.spec_covers(a),
    ensures
        l@ =~= seq![b],
{
    let s2 = seq![b];
    assert(seq_wf(s2)) by {
        assert(forall|i: int| 0 <= i < s2.len() ==> (#[trigger] s2[i]) == b);
    }
    assert forall|a: int|
        #![trigger seq_covers(l@, a)]
        #![trigger seq_covers(s2, a)]
        seq_covers(l@, a) == seq_covers(s2, a) by {
        assert(l.covers(a) == b.spec_covers(a));
        if b.spec_covers(a) {
            lemma_covers_witness(s2, 0, a);
        }
        if seq_covers(s2, a) {
            let k = lemma_covers_elim(s2, a);
            assert(s2[k] == b);
        }
    }
    lemma_canonical_unique(l@, s2);
}

/// Removing a block and then inserting it back restores exactly the
/// collection that inserting the block directly would give: the coverage
/// clauses of `remove` and `insert` pin both down to the same canonical
/// form.
pub proof fn lemma_remove_insert_inverse(
    l0: Ipv4CidrList,
    l1: Ipv4CidrList,
    l2: Ipv4CidrList,
    l3: Ipv4CidrList,
    c: Ipv4Cidr,
)
    requires
        l0.wf(),
        l1.wf(),
        l2.wf(),
        l3.wf(),
        c.wf(),
        // l1 is l0 with the block's addresses removed,
        forall|a: int|
            #![trigger seq_covers(l1@, a)]
            seq_covers(l1@, a) <==> seq_covers(l0@, a) && !c.spec_covers(a),
        // l2 is l1 with the block's addresses put back,
        forall|a: int|
            #![trigger seq_covers(l2@, a)]
            seq_covers(l2@, a) <==> seq_covers(l1@, a) || c.spec_covers(a),
        // and l3 is l0 with the block's addresses inserted directly.
        forall|a: int|
            #![trigger seq_covers(l3@, a)]
            seq_covers(l3@, a) <==> seq_covers(l0@, a) || c.spec_covers(a),
    ensures
        l2@ == l3@,
{
    assert forall|a: int|
        #![trigger seq_covers(l2@, a)]
        #![trigger seq_covers(l3@, a)]
        seq_covers(l2@, a) == seq_covers(l3@, a) by {
        assert(seq_covers(l1@, a) <==> seq_covers(l0@, a) && !c.spec_covers(a));
    }
    lemma_canonical_unique(l2@, l3@);
}

/// Pairs beyond neighbours are also separated, by chaining the gaps.
proof fn lemma_ranges_chain(rs: Seq<(u32, u32)>, j: int, k: int)
    requires
        forall|m: int| 0 <= m < rs.len() ==> (#[trigger] rs[m]).0 <= rs[m].1,
        forall|m: int| 0 <= m < rs.len() - 1 ==> (#[trigger] rs[m]).1 + 1 < rs[m + 1].0,
        0 <= j < k < rs.len(),
    ensures
        rs[j].1 + 1 < rs[k].0,
    decreases k - j,
{
    if k == j + 1 {
        assert(rs[j].1 + 1 < rs[j + 1].0);
    } else {
        lemma_ranges_chain(rs, j, k - 1);
        assert(rs[k - 1].1 + 1 < rs[k].0);
    }
}

/// A sorted, gapped range list that covers exactly `lo..=hi` is the single
/// pair `(lo, hi)`: range decomposition followed by range export gives one
/// contiguous run back.
pub proof fn lemma_range_list_exact(rs: Seq<(u32, u32)>, lo: u32, hi: u32)
    requires
        lo <= hi,
        forall|k: int| 0 <= k < rs.len() ==> (#[trigger] rs[k]).0 <= rs[k].1,
        forall|k: int| 0 <= k < rs.len() - 1 ==> (#[trigger] rs[k]).1 + 1 < rs[k + 1].0,
        forall|a: int| #[trigger] ranges_cover(rs, a) <==> lo <= a <= hi,
    ensures
        rs =~= seq![(lo, hi)],
{
    assert(ranges_cover(rs, lo as int));
    let k0 = lemma_ranges_elim(rs, lo as int);
    if rs.len() > 1 {
        // The gap after the first pair falls inside `lo..=hi` yet is
        // uncovered.
        lemma_ranges_witness(rs, 0, rs[0].0 as int);
        lemma_ranges_witness(rs, 1, rs[1].0 as int);
        let g = rs[0].1 + 1;
        assert(lo <= g <= hi);
        assert(ranges_cover(rs, g as int));
        let kg = lemma_ranges_elim(rs, g as int);
        if kg == 0 {
            assert(false);
        } else {
            if kg > 1 {
                lemma_ranges_chain(rs, 1, kg);
            }
            assert(rs[kg].0 > g);
            assert(false);
        }
    }
    lemma_ranges_witness(rs, 0, rs[0].0 as int);
    lemma_ranges_witness(rs, 0, rs[0].1 as int);
    assert(ranges_cover(rs, lo as int));
    assert(ranges_cover(rs, hi as int));
    let ka = lemma_ranges_elim(rs, lo as int);
    let kb = lemma_ranges_elim(rs, hi as int);
    assert(rs[0].0 == lo && rs[0].1 == hi);
}

} // verus!
