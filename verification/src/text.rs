//! The `a.b.c.d/m` text form of a CIDR block.
//!
//! A block renders as its first address in dotted-quad form, a slash, and
//! the mask length.  Parsing accepts a dotted quad with an optional
//! `/mask`; a missing mask means a single host.  Each octet is one to
//! three digits and at most 255, with a three-digit octet at least 100;
//! the mask is one or two digits and at most 32, with a two-digit mask at
//! least 10.  Any other shape is refused.

use crate::arith::p2;
use crate::block::{construct, CidrError, Ipv4Cidr};
use vstd::prelude::*;
use vstd::string::StringExecFns;

verus! {

/// An ASCII decimal digit.
pub open spec fn is_digit(c: char) -> bool {
    48 <= c as u32 <= 57
}

/// The value of one digit.
pub open spec fn digit_val(c: char) -> int {
    c as u32 - 48
}

/// The digit character for a value below ten.
pub open spec fn digit_char(d: int) -> char {
    ((48 + d) as u8) as char
}

/// Every character of `s` is a digit.
pub open spec fn all_digits(s: Seq<char>) -> bool {
    forall|i: int| 0 <= i < s.len() ==> is_digit(#[trigger] s[i])
}

/// The value of a digit string, most significant first.
pub open spec fn dec_val(s: Seq<char>) -> int
    decreases s.len(),
{
    if s.len() == 0 {
        0
    } else {
        dec_val(s.drop_last()) * 10 + digit_val(s.last())
    }
}

/// The decimal rendering of a non-negative number, without leading zeros.
pub open spec fn dec_text(n: int) -> Seq<char>
    decreases n,
{
    if n < 10 {
        seq![digit_char(n)]
    } else {
        dec_text(n / 10).push(digit_char(n % 10))
    }
}

/// A legal octet: one to three digits, a three-digit one between 100 and
/// 255.
pub open spec fn valid_octet(s: Seq<char>) -> bool {
    &&& all_digits(s)
    &&& 1 <= s.len() <= 3
    &&& (s.len() < 3 || 100 <= dec_val(s) <= 255)
}

/// A legal mask: one or two digits, a two-digit one between 10 and 32.
pub open spec fn valid_mask_text(s: Seq<char>) -> bool {
    &&& all_digits(s)
    &&& 1 <= s.len() <= 2
    &&& (s.len() < 2 || 10 <= dec_val(s) <= 32)
}

/// Index of the first non-digit at or after `from`.
pub open spec fn digit_run_end(s: Seq<char>, from: int) -> int
    recommends
        0 <= from <= s.len(),
    decreases s.len() - from,
{
    if from < 0 || from >= s.len() || !is_digit(s[from]) {
        from
    } else {
        digit_run_end(s, from + 1)
    }
}

/// The value the four octets spell, big end first.
pub open spec fn quad_val(v1: int, v2: int, v3: int, v4: int) -> int {
    ((v1 * 256 + v2) * 256 + v3) * 256 + v4
}

/// What a CIDR text means: the dotted quad's octets are the maximal digit
/// runs between the dots, the optional `/mask` follows, and the block is
/// normalized from the spelled address and mask.
pub open spec fn spec_parse(s: Seq<char>) -> Option<Ipv4Cidr> {
    let e1 = digit_run_end(s, 0);
    let o1 = s.subrange(0, e1);
    if !valid_octet(o1) || e1 >= s.len() || s[e1] != '.' {
        None
    } else {
        let e2 = digit_run_end(s, e1 + 1);
        let o2 = s.subrange(e1 + 1, e2);
        if !valid_octet(o2) || e2 >= s.len() || s[e2] != '.' {
            None
        } else {
            let e3 = digit_run_end(s, e2 + 1);
            let o3 = s.subrange(e2 + 1, e3);
            if !valid_octet(o3) || e3 >= s.len() || s[e3] != '.' {
                None
            } else {
                let e4 = digit_run_end(s, e3 + 1);
                let o4 = s.subrange(e3 + 1, e4);
                if !valid_octet(o4) || dec_val(o1) > 255 || dec_val(o2) > 255 || dec_val(o3)
                    > 255 || dec_val(o4) > 255 {
                    None
                } else {
                    let addr = quad_val(dec_val(o1), dec_val(o2), dec_val(o3), dec_val(o4));
                    if e4 == s.len() {
                        Some(construct(addr as u32, 32))
                    } else if s[e4] != '/' {
                        None
                    } else {
                        let em = digit_run_end(s, e4 + 1);
                        let mt = s.subrange(e4 + 1, em);
                        if em != s.len() || !valid_mask_text(mt) {
                            None
                        } else {
                            Some(construct(addr as u32, dec_val(mt) as u8))
                        }
                    }
                }
            }
        }
    }
}

/// The canonical rendering: the block's first address as a dotted quad,
/// then a slash and the mask length.
pub open spec fn spec_text(b: Ipv4Cidr) -> Seq<char> {
    dec_text(b.net as int / 0x1000000) + seq!['.'] + dec_text((b.net as int / 0x10000) % 256)
        + seq!['.'] + dec_text((b.net as int / 0x100) % 256) + seq!['.'] + dec_text(
        b.net as int % 256,
    ) + seq!['/'] + dec_text(32 - b.size as int)
}

/// The rendering of a whole collection: one block per line.
pub open spec fn spec_list_text(s: Seq<Ipv4Cidr>) -> Seq<char>
    decreases s.len(),
{
    if s.len() == 0 {
        Seq::empty()
    } else {
        spec_list_text(s.drop_last()) + spec_text(s.last()) + seq!['\n']
    }
}

/// Digit characters and digit values invert each other.
proof fn lemma_digit_char_val(d: int)
    requires
        0 <= d <= 9,
    ensures
        is_digit(digit_char(d)),
        digit_val(digit_char(d)) == d,
{
}

/// A digit string of bounded length has a bounded value, and each digit is
/// at most 9.
proof fn lemma_dec_val_bounds(s: Seq<char>)
    requires
        all_digits(s),
    ensures
        s.len() == 1 ==> 0 <= dec_val(s) <= 9,
        s.len() == 2 ==> 0 <= dec_val(s) <= 99,
        s.len() == 3 ==> 0 <= dec_val(s) <= 999,
    decreases s.len(),
{
    if 1 <= s.len() <= 3 {
        assert(all_digits(s.drop_last())) by {
            assert(forall|i: int|
                0 <= i < s.drop_last().len() ==> s.drop_last()[i] == s[i]);
        }
        lemma_dec_val_bounds(s.drop_last());
        assert(is_digit(s.last()));
        if s.len() == 1 {
            assert(dec_val(s.drop_last()) == 0);
        }
    }
}

/// The decimal rendering of a number up to 255: its length classifies the
/// number, every character is a digit, and the value reads back.
proof fn lemma_dec_text_props(n: int)
    requires
        0 <= n <= 255,
    ensures
        all_digits(dec_text(n)),
        dec_val(dec_text(n)) == n,
        n < 10 ==> dec_text(n).len() == 1,
        10 <= n < 100 ==> dec_text(n).len() == 2,
        100 <= n ==> dec_text(n).len() == 3,
    decreases n,
{
    if n < 10 {
        lemma_digit_char_val(n);
        let t = dec_text(n);
        assert(t.len() == 1);
        assert(t.drop_last().len() == 0);
        assert(dec_val(t.drop_last()) == 0);
        assert(t.last() == digit_char(n));
        assert(dec_val(t) == digit_val(t.last()));
    } else {
        lemma_dec_text_props(n / 10);
        lemma_digit_char_val(n % 10);
        let t = dec_text(n);
        assert(t == dec_text(n / 10).push(digit_char(n % 10)));
        assert(t.drop_last() =~= dec_text(n / 10));
        assert(t.last() == digit_char(n % 10));
        assert(dec_val(t) == dec_val(dec_text(n / 10)) * 10 + (n % 10));
        assert(n / 10 * 10 + n % 10 == n) by {
            vstd::arithmetic::div_mod::lemma_fundamental_div_mod(n, 10);
        }
        assert forall|i: int| 0 <= i < t.len() implies is_digit(#[trigger] t[i]) by {
            if i < t.len() - 1 {
                assert(t[i] == dec_text(n / 10)[i]);
            }
        }
    }
}

/// A run of `k` digits from `from`, stopped by the end or a non-digit,
/// is exactly what `digit_run_end` finds.
proof fn lemma_digit_run(s: Seq<char>, from: int, k: int)
    requires
        0 <= from,
        0 <= k,
        from + k <= s.len(),
        forall|i: int| from <= i < from + k ==> is_digit(#[trigger] s[i]),
        from + k == s.len() || !is_digit(s[from + k]),
    ensures
        digit_run_end(s, from) == from + k,
    decreases k,
{
    if k == 0 {
    } else {
        assert(is_digit(s[from]));
        lemma_digit_run(s, from + 1, k - 1);
    }
}

/// Scan forward from `from` to the first non-digit.
fn find_run_end(s: &str, from: usize, n: usize) -> (r: usize)
    requires
        n == s@.len(),
        from <= n,
    ensures
        r == digit_run_end(s@, from as int),
        from <= r <= n,
        forall|i: int| from <= i < r ==> is_digit(#[trigger] s@[i]),
        r == n || !is_digit(s@[r as int]),
    decreases n - from,
{
    if from == n {
        proof {
            lemma_digit_run(s@, from as int, 0);
        }
        return from;
    }
    let c = s.get_char(from);
    let u = c as u32;
    if u < 48 || u > 57 {
        proof {
            lemma_digit_run(s@, from as int, 0);
        }
        return from;
    }
    let r = find_run_end(s, from + 1, n);
    proof {
        assert(digit_run_end(s@, from as int) == digit_run_end(s@, from as int + 1));
    }
    r
}

/// Read the decimal value of the digits in `s[from..end]` (at most three).
fn read_decimal(s: &str, from: usize, end: usize) -> (v: u32)
    requires
        from <= end <= s@.len(),
        end - from <= 3,
        forall|i: int| from <= i < end ==> is_digit(#[trigger] s@[i]),
    ensures
        v == dec_val(s@.subrange(from as int, end as int)),
        v <= 999,
        end - from <= 2 ==> v <= 99,
        end - from <= 1 ==> v <= 9,
{
    let mut v: u32 = 0;
    let mut i = from;
    proof {
        assert(s@.subrange(from as int, from as int) =~= Seq::<char>::empty());
        lemma_dec_val_bounds(s@.subrange(from as int, end as int));
        assert(forall|k: int|
            0 <= k < end - from ==> s@.subrange(from as int, end as int)[k] == s@[from + k]);
    }
    while i < end
        invariant
            from <= i <= end <= s@.len(),
            end - from <= 3,
            forall|k: int| from <= k < end ==> is_digit(#[trigger] s@[k]),
            v == dec_val(s@.subrange(from as int, i as int)),
            i - from <= 2 ==> v <= 99,
            v <= 999,
        decreases end - i,
    {
        let c = s.get_char(i);
        let d = (c as u32) - 48;
        proof {
            let pre = s@.subrange(from as int, i as int);
            let cur = s@.subrange(from as int, i + 1);
            assert(cur.drop_last() =~= pre);
            assert(cur.last() == s@[i as int]);
            assert(all_digits(cur)) by {
                assert(forall|k: int| 0 <= k < cur.len() ==> cur[k] == s@[from + k]);
            }
            lemma_dec_val_bounds(cur);
            lemma_dec_val_bounds(pre);
        }
        v = v * 10 + d;
        i += 1;
    }
    proof {
        lemma_dec_val_bounds(s@.subrange(from as int, end as int));
    }
    v
}

impl crate::list::Ipv4CidrList {
    /// Render the collection: each member block on its own line, in
    /// increasing address order.
    pub fn to_string(&self) -> (r: String)
        requires
            self.wf(),
        ensures
            r@ == spec_list_text(self@),
    {
        let mut out = String::new();
        let n = self.blocks.len();
        let mut i: usize = 0;
        proof {
            assert(self@.take(0) =~= Seq::<Ipv4Cidr>::empty());
        }
        while i < n
            invariant
                crate::list::seq_wf(self@),
                n == self@.len(),
                0 <= i <= n,
                out@ == spec_list_text(self@.take(i as int)),
            decreases n - i,
        {
            let t = self.blocks[i].to_string();
            out.append(t.as_str());
            out.append("\n");
            proof {
                reveal_strlit("\n");
                assert("\n"@ =~= seq!['\n']);
                assert(self@.take(i + 1).drop_last() =~= self@.take(i as int));
                assert(self@.take(i + 1).last() == self@[i as int]);
                assert(out@ =~= spec_list_text(self@.take(i + 1)));
            }
            i += 1;
        }
        proof {
            assert(self@.take(n as int) =~= self@);
        }
        out
    }
}

/// A 32-bit value is the dotted quad of its four bytes.
proof fn lemma_quad_decompose(net: int) -> (r: (int, int, int, int))
    requires
        0 <= net < 0x100000000,
    ensures
        r == (net / 0x1000000, (net / 0x10000) % 256, (net / 0x100) % 256, net % 256),
        quad_val(r.0, r.1, r.2, r.3) == net,
        0 <= r.0 <= 255,
        0 <= r.1 <= 255,
        0 <= r.2 <= 255,
        0 <= r.3 <= 255,
{
    let x1 = net / 256;
    let x2 = net / 0x10000;
    let x3 = net / 0x1000000;
    vstd::arithmetic::div_mod::lemma_fundamental_div_mod(net, 256);
    vstd::arithmetic::div_mod::lemma_mod_bound(net, 256);
    vstd::arithmetic::div_mod::lemma_div_denominator(net, 256, 256);
    vstd::arithmetic::div_mod::lemma_fundamental_div_mod(x1, 256);
    vstd::arithmetic::div_mod::lemma_mod_bound(x1, 256);
    vstd::arithmetic::div_mod::lemma_div_denominator(x1, 256, 256);
    vstd::arithmetic::div_mod::lemma_fundamental_div_mod(x2, 256);
    vstd::arithmetic::div_mod::lemma_mod_bound(x2, 256);
    assert(x1 / 256 == x2);
    assert(x2 / 256 == x3);
    assert(net == x1 * 256 + net % 256) by (nonlinear_arith)
        requires
            net == 256 * x1 + net % 256,
    ;
    assert(x1 == x2 * 256 + x1 % 256) by (nonlinear_arith)
        requires
            x1 == 256 * x2 + x1 % 256,
    ;
    assert(x2 == x3 * 256 + x2 % 256) by (nonlinear_arith)
        requires
            x2 == 256 * x3 + x2 % 256,
    ;
    (net / 0x1000000, (net / 0x10000) % 256, (net / 0x100) % 256, net % 256)
}

/// Parsing the canonical rendering of a well-formed block gives the block
/// back.
pub proof fn lemma_text_round_trip(b: Ipv4Cidr)
    requires
        b.wf(),
    ensures
        spec_parse(spec_text(b)) == Some(b),
{
    b.lemma_high_in_range();
    crate::arith::lemma_p2_values();
    let net = b.net as int;
    let q = lemma_quad_decompose(net);
    let mask = 32 - b.size as int;
    lemma_dec_text_props(q.0);
    lemma_dec_text_props(q.1);
    lemma_dec_text_props(q.2);
    lemma_dec_text_props(q.3);
    lemma_dec_text_props(mask);
    let d0 = dec_text(q.0);
    let d1 = dec_text(q.1);
    let d2 = dec_text(q.2);
    let d3 = dec_text(q.3);
    let dm = dec_text(mask);
    let t = spec_text(b);
    let p1 = d0.len() as int;
    let s2 = p1 + 1;
    let p2 = s2 + d1.len();
    let s3 = p2 + 1;
    let p3 = s3 + d2.len();
    let s4 = p3 + 1;
    let p4 = s4 + d3.len();
    let sm = p4 + 1;
    let pm = sm + dm.len();
    assert(t.len() == pm);
    assert(t[p1] == '.' && t[p2] == '.' && t[p3] == '.' && t[p4] == '/');
    // Each rendered number is the maximal digit run at its position.
    assert forall|i: int| 0 <= i < p1 implies is_digit(#[trigger] t[i]) by {
        assert(t[i] == d0[i]);
    }
    assert forall|i: int| s2 <= i < p2 implies is_digit(#[trigger] t[i]) by {
        assert(t[i] == d1[i - s2]);
    }
    assert forall|i: int| s3 <= i < p3 implies is_digit(#[trigger] t[i]) by {
        assert(t[i] == d2[i - s3]);
    }
    assert forall|i: int| s4 <= i < p4 implies is_digit(#[trigger] t[i]) by {
        assert(t[i] == d3[i - s4]);
    }
    assert forall|i: int| sm <= i < pm implies is_digit(#[trigger] t[i]) by {
        assert(t[i] == dm[i - sm]);
    }
    lemma_digit_run(t, 0, p1);
    lemma_digit_run(t, s2, d1.len() as int);
    lemma_digit_run(t, s3, d2.len() as int);
    lemma_digit_run(t, s4, d3.len() as int);
    lemma_digit_run(t, sm, dm.len() as int);
    assert(t.subrange(0, p1) =~= d0);
    assert(t.subrange(s2, p2) =~= d1);
    assert(t.subrange(s3, p3) =~= d2);
    assert(t.subrange(s4, p4) =~= d3);
    assert(t.subrange(sm, pm) =~= dm);
    assert(valid_octet(d0) && valid_octet(d1) && valid_octet(d2) && valid_octet(d3));
    assert(valid_mask_text(dm)) by {
        if mask >= 10 {
            assert(dm.len() == 2);
        }
    }
    assert(quad_val(dec_val(d0), dec_val(d1), dec_val(d2), dec_val(d3)) == net);
    // Normalizing the spelled address and mask gives the block itself back.
    let c = crate::block::construct(net as u32, dec_val(dm) as u8);
    assert(c == b) by {
        assert(dec_val(dm) == mask);
        crate::arith::lemma_align_down_exact(net, b.size as nat);
    }
    assert(spec_parse(t) == Some(b));
}

/// One digit as text.
fn digit_str(d: u32) -> (r: &'static str)
    requires
        d <= 9,
    ensures
        r@ == seq![digit_char(d as int)],
{
    match d {
        0 => {
            proof {
                reveal_strlit("0");
                assert("0"@ =~= seq![digit_char(0)]);
            }
            "0"
        },
        1 => {
            proof {
                reveal_strlit("1");
                assert("1"@ =~= seq![digit_char(1)]);
            }
            "1"
        },
        2 => {
            proof {
                reveal_strlit("2");
                assert("2"@ =~= seq![digit_char(2)]);
            }
            "2"
        },
        3 => {
            proof {
                reveal_strlit("3");
                assert("3"@ =~= seq![digit_char(3)]);
            }
            "3"
        },
        4 => {
            proof {
                reveal_strlit("4");
                assert("4"@ =~= seq![digit_char(4)]);
            }
            "4"
        },
        5 => {
            proof {
                reveal_strlit("5");
                assert("5"@ =~= seq![digit_char(5)]);
            }
            "5"
        },
        6 => {
            proof {
                reveal_strlit("6");
                assert("6"@ =~= seq![digit_char(6)]);
            }
            "6"
        },
        7 => {
            proof {
                reveal_strlit("7");
                assert("7"@ =~= seq![digit_char(7)]);
            }
            "7"
        },
        8 => {
            proof {
                reveal_strlit("8");
                assert("8"@ =~= seq![digit_char(8)]);
            }
            "8"
        },
        _ => {
            proof {
                reveal_strlit("9");
                assert("9"@ =~= seq![digit_char(9)]);
            }
            "9"
        },
    }
}

/// Append the decimal rendering of `n`, up to three digits.
fn push_decimal(out: &mut String, n: u32)
    requires
        n <= 255,
    ensures
        final(out)@ == old(out)@ + dec_text(n as int),
{
    proof {
        vstd::arithmetic::div_mod::lemma_mod_bound(n as int, 10);
        vstd::arithmetic::div_mod::lemma_mod_bound(n as int / 10, 10);
        vstd::arithmetic::div_mod::lemma_div_denominator(n as int, 10, 10);
    }
    if n >= 100 {
        out.append(digit_str(n / 100));
    }
    if n >= 10 {
        out.append(digit_str((n / 10) % 10));
    }
    out.append(digit_str(n % 10));
    proof {
        reveal_with_fuel(dec_text, 3);
        if n < 10 {
            assert(out@ =~= old(out)@ + dec_text(n as int));
        } else if n < 100 {
            assert((n as int / 10) % 10 == n as int / 10) by {
                vstd::arithmetic::div_mod::lemma_small_mod((n as nat) / 10, 10);
            }
            assert(dec_text(n as int / 10) =~= seq![digit_char(n as int / 10)]);
            assert(out@ =~= old(out)@ + dec_text(n as int));
        } else {
            assert(n as int / 10 >= 10 && n as int / 10 <= 25);
            assert((n as int / 10) / 10 == n as int / 100);
            assert(dec_text(n as int / 100) =~= seq![digit_char(n as int / 100)]);
            assert(dec_text(n as int / 10) =~= seq![
                digit_char(n as int / 100),
                digit_char((n as int / 10) % 10),
            ]);
            assert(out@ =~= old(out)@ + dec_text(n as int));
        }
    }
}

impl Ipv4Cidr {
    /// Render the block as `a.b.c.d/m`: the first address of the block in
    /// dotted-quad form, then the mask length.
    pub fn to_string(&self) -> (r: String)
        requires
            self.wf(),
        ensures
            r@ == spec_text(*self),
    {
        let mut out = String::new();
        proof {
            crate::arith::lemma_p2_values();
            let nv = self.net;
            vstd::bits::lemma_u32_shr_is_div(nv, 24);
            vstd::bits::lemma_u32_shr_is_div(nv, 16);
            vstd::bits::lemma_u32_shr_is_div(nv, 8);
            assert((nv >> 16) & 255 == (nv >> 16) % 256) by (bit_vector);
            assert((nv >> 8) & 255 == (nv >> 8) % 256) by (bit_vector);
            assert(nv & 255 == nv % 256) by (bit_vector);
            assert(nv >> 24 < 256) by (bit_vector);
            reveal_strlit(".");
            reveal_strlit("/");
            assert("."@ =~= seq!['.']);
            assert("/"@ =~= seq!['/']);
            vstd::arithmetic::div_mod::lemma_mod_bound((nv >> 16) as int, 256);
            vstd::arithmetic::div_mod::lemma_mod_bound((nv >> 8) as int, 256);
            vstd::arithmetic::div_mod::lemma_mod_bound(nv as int, 256);
        }
        push_decimal(&mut out, self.net >> 24);
        out.append(".");
        push_decimal(&mut out, (self.net >> 16) & 255);
        out.append(".");
        push_decimal(&mut out, (self.net >> 8) & 255);
        out.append(".");
        push_decimal(&mut out, self.net & 255);
        out.append("/");
        push_decimal(&mut out, (32 - self.size) as u32);
        proof {
            assert(out@ =~= spec_text(*self));
        }
        out
    }

    /// Parse the `a.b.c.d/m` text form; a missing `/m` means a single
    /// host.  Returns exactly what the grammar `spec_parse` assigns, and
    /// fails with `ParseError` on any text the grammar refuses.
    #[verifier::spinoff_prover]
    pub fn from_str(s: &str) -> (r: Result<Ipv4Cidr, CidrError>)
        ensures
            match r {
                Ok(b) => spec_parse(s@) == Some(b),
                Err(e) => spec_parse(s@) == None::<Ipv4Cidr> && e == CidrError::ParseError,
            },
    {
        let n = s.unicode_len();
        let e1 = find_run_end(s, 0, n);
        if e1 < 1 || e1 > 3 || e1 >= n || s.get_char(e1) != '.' {
            return Err(CidrError::ParseError);
        }
        let v1 = read_decimal(s, 0, e1);
        if e1 == 3 && (v1 < 100 || v1 > 255) {
            return Err(CidrError::ParseError);
        }
        let e2 = find_run_end(s, e1 + 1, n);
        if e2 - (e1 + 1) < 1 || e2 - (e1 + 1) > 3 || e2 >= n || s.get_char(e2) != '.' {
            return Err(CidrError::ParseError);
        }
        let v2 = read_decimal(s, e1 + 1, e2);
        if e2 - (e1 + 1) == 3 && (v2 < 100 || v2 > 255) {
            return Err(CidrError::ParseError);
        }
        let e3 = find_run_end(s, e2 + 1, n);
        if e3 - (e2 + 1) < 1 || e3 - (e2 + 1) > 3 || e3 >= n || s.get_char(e3) != '.' {
            return Err(CidrError::ParseError);
        }
        let v3 = read_decimal(s, e2 + 1, e3);
        if e3 - (e2 + 1) == 3 && (v3 < 100 || v3 > 255) {
            return Err(CidrError::ParseError);
        }
        let e4 = find_run_end(s, e3 + 1, n);
        if e4 - (e3 + 1) < 1 || e4 - (e3 + 1) > 3 {
            return Err(CidrError::ParseError);
        }
        let v4 = read_decimal(s, e3 + 1, e4);
        if e4 - (e3 + 1) == 3 && (v4 < 100 || v4 > 255) {
            return Err(CidrError::ParseError);
        }
        proof {
            assert(v1 <= 255 && v2 <= 255 && v3 <= 255 && v4 <= 255);
        }
        let addr: u32 = ((v1 * 256 + v2) * 256 + v3) * 256 + v4;
        proof {
            assert(addr as int == quad_val(v1 as int, v2 as int, v3 as int, v4 as int));
        }
        if e4 == n {
            let b = match Ipv4Cidr::new(addr, 32) {
                Ok(b) => b,
                Err(_) => {
                    proof {
                        assert(false);
                    }
                    Ipv4Cidr { net: 0, size: 0 }
                },
            };
            proof {
                assert(b == construct(addr, 32));
            }
            return Ok(b);
        }
        if s.get_char(e4) != '/' {
            return Err(CidrError::ParseError);
        }
        let em = find_run_end(s, e4 + 1, n);
        if em != n || em - (e4 + 1) < 1 || em - (e4 + 1) > 2 {
            return Err(CidrError::ParseError);
        }
        let vm = read_decimal(s, e4 + 1, em);
        if em - (e4 + 1) == 2 && (vm < 10 || vm > 32) {
            return Err(CidrError::ParseError);
        }
        proof {
            assert(vm <= 32);
        }
        let b = match Ipv4Cidr::new(addr, vm as u8) {
            Ok(b) => b,
            Err(_) => {
                proof {
                    lemma_dec_val_bounds(s@.subrange(e4 + 1, em as int));
                    assert(false);
                }
                Ipv4Cidr { net: 0, size: 0 }
            },
        };
        proof {
            assert(b == construct(addr, (vm as u8)));
        }
        Ok(b)
    }
}

} // verus!
