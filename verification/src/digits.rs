//! Decimal digit strings: parsing a digit suffix the way `u32` parsing does
//! (empty or too large reads as zero), and printing a number back.

use vstd::prelude::*;
use vstd::arithmetic::div_mod::lemma_fundamental_div_mod;

verus! {

pub open spec fn is_digit(b: u8) -> bool {
    0x30 <= b <= 0x39
}

pub open spec fn all_digits(s: Seq<u8>) -> bool {
    forall|i: int| 0 <= i < s.len() ==> is_digit(#[trigger] s[i])
}

/// The number a digit string denotes, most significant digit first.
pub open spec fn digits_value(s: Seq<u8>) -> int
    decreases s.len(),
{
    if s.len() == 0 {
        0
    } else {
        digits_value(s.drop_last()) * 10 + (s.last() - 0x30)
    }
}

/// The largest value a `u32` holds; digit suffixes beyond it read as zero.
pub open spec fn u32_limit() -> int {
    0xFFFF_FFFF
}

/// A digit suffix read the way `u32` parsing reads it: an empty string or one
/// whose value exceeds the `u32` range fails to parse and counts as zero.
pub open spec fn parsed_or_zero(s: Seq<u8>) -> int {
    if s.len() == 0 || digits_value(s) > u32_limit() {
        0
    } else {
        digits_value(s)
    }
}

/// The decimal representation of `n`, without leading zeros (except for zero
/// itself).
pub open spec fn dec_rep(n: nat) -> Seq<u8>
    decreases n,
{
    if n < 10 {
        seq![(0x30 + n) as u8]
    } else {
        dec_rep(n / 10).push((0x30 + n % 10) as u8)
    }
}

/// Printing then re-reading a number gives the number back.
pub proof fn lemma_dec_rep(n: nat)
    ensures
        all_digits(dec_rep(n)),
        digits_value(dec_rep(n)) == n,
        dec_rep(n).len() >= 1,
    decreases n,
{
    if n < 10 {
        let s = seq![(0x30 + n) as u8];
        assert(s.drop_last() =~= Seq::<u8>::empty());
        assert(digits_value(Seq::<u8>::empty()) == 0);
        assert(s.last() == (0x30 + n) as u8);
        assert(digits_value(s) == n);
    } else {
        lemma_dec_rep(n / 10);
        let s = dec_rep(n / 10);
        let d = (0x30 + n % 10) as u8;
        assert(s.push(d).drop_last() =~= s);
        assert(s.push(d).last() == d);
        lemma_fundamental_div_mod(n as int, 10);
        assert(digits_value(s.push(d)) == (n / 10) * 10 + n % 10);
        assert(forall|i: int|
            0 <= i < s.push(d).len() ==> is_digit(#[trigger] s.push(d)[i]));
    }
}

/// A digit string denotes a non-negative number.
pub proof fn lemma_digits_value_nonneg(s: Seq<u8>)
    requires
        all_digits(s),
    ensures
        digits_value(s) >= 0,
    decreases s.len(),
{
    if s.len() > 0 {
        assert(forall|i: int|
            0 <= i < s.drop_last().len() ==> is_digit(#[trigger] s.drop_last()[i]));
        lemma_digits_value_nonneg(s.drop_last());
        assert(is_digit(s.last()));
        assert(digits_value(s.drop_last()) * 10 >= 0) by (nonlinear_arith)
            requires
                digits_value(s.drop_last()) >= 0,
        ;
    }
}

/// The parse-or-zero reading always lies in the `u32` range.
pub proof fn lemma_parsed_or_zero_bounds(s: Seq<u8>)
    requires
        all_digits(s),
    ensures
        0 <= parsed_or_zero(s) <= u32_limit(),
{
    lemma_digits_value_nonneg(s);
}

/// Checks that every byte is an ASCII digit.
pub fn all_digits_exec(s: &[u8]) -> (r: bool)
    ensures
        r == all_digits(s@),
{
    let n = s.len();
    let mut i: usize = 0;
    while i < n
        invariant
            n == s@.len(),
            i <= n,
            forall|j: int| 0 <= j < i ==> is_digit(#[trigger] s@[j]),
        decreases n - i,
    {
        if s[i] < 0x30 || s[i] > 0x39 {
            return false;
        }
        i = i + 1;
    }
    true
}

/// Parses an all-digit string, reading an empty or over-large suffix as zero.
pub fn parse_digits_or_zero(s: &[u8]) -> (r: u64)
    requires
        all_digits(s@),
    ensures
        r as int == parsed_or_zero(s@),
        r <= 0xFFFF_FFFF,
{
    let n = s.len();
    if n == 0 {
        return 0;
    }
    let mut val: u64 = 0;
    let mut over: bool = false;
    let mut i: usize = 0;
    proof {
        assert(s@.subrange(0, 0) =~= Seq::<u8>::empty());
    }
    while i < n
        invariant
            n == s@.len(),
            i <= n,
            all_digits(s@),
            !over ==> val as int == digits_value(s@.subrange(0, i as int)) && val <= 0xFFFF_FFFF,
            over ==> digits_value(s@.subrange(0, i as int)) > u32_limit(),
        decreases n - i,
    {
        proof {
            assert(is_digit(s@[i as int]));
            assert(s@.subrange(0, i + 1).drop_last() =~= s@.subrange(0, i as int));
            assert(s@.subrange(0, i + 1).last() == s@[i as int]);
        }
        let d = s[i] - 0x30;
        if !over {
            val = val * 10 + (d as u64);
            if val > 0xFFFF_FFFF {
                over = true;
                val = 0;
            }
        } else {
            proof {
                let pre = digits_value(s@.subrange(0, i as int));
                assert(digits_value(s@.subrange(0, i + 1)) == pre * 10 + (s@[i as int] - 0x30));
                assert(pre * 10 >= pre) by (nonlinear_arith)
                    requires
                        pre >= 0,
                ;
            }
        }
        i = i + 1;
    }
    proof {
        assert(s@.subrange(0, n as int) =~= s@);
    }
    if over {
        0
    } else {
        val
    }
}

/// Prints `n` in decimal.
pub fn format_u64(n: u64) -> (r: Vec<u8>)
    ensures
        r@ == dec_rep(n as nat),
{
    if n == 0 {
        let mut v: Vec<u8> = Vec::new();
        v.push(0x30);
        proof {
            assert(v@ =~= dec_rep(0));
        }
        return v;
    }
    let mut rev: Vec<u8> = Vec::new();
    let mut m: u64 = n;
    proof {
        assert(dec_rep(n as nat) + Seq::<u8>::empty() =~= dec_rep(n as nat));
        assert(rev@.reverse() =~= Seq::<u8>::empty());
    }
    while m > 0
        invariant
            m > 0 ==> dec_rep(n as nat) == dec_rep(m as nat) + rev@.reverse(),
            m == 0 ==> rev@.len() > 0 && dec_rep(n as nat) == rev@.reverse(),
        decreases m,
    {
        let ghost old_rev = rev@;
        let ghost old_m = m;
        let d: u8 = 0x30 + (m % 10) as u8;
        rev.push(d);
        m = m / 10;
        proof {
            assert(rev@.reverse() =~= seq![d] + old_rev.reverse());
            if old_m >= 10 {
                assert(dec_rep(old_m as nat) == dec_rep((old_m / 10) as nat).push(d));
                assert(dec_rep((old_m / 10) as nat).push(d) + old_rev.reverse() =~= dec_rep(
                    (old_m / 10) as nat,
                ) + (seq![d] + old_rev.reverse()));
            } else {
                assert(dec_rep(old_m as nat) =~= seq![d]);
                assert(seq![d] + old_rev.reverse() =~= rev@.reverse());
            }
        }
    }
    let k = rev.len();
    let mut out: Vec<u8> = Vec::new();
    let mut i: usize = 0;
    while i < k
        invariant
            k == rev@.len(),
            i <= k,
            out@.len() == i,
            forall|j: int| 0 <= j < i ==> out@[j] == rev@[k - 1 - j],
        decreases k - i,
    {
        let b = rev[k - 1 - i];
        out.push(b);
        i = i + 1;
    }
    proof {
        assert(out@ =~= rev@.reverse());
    }
    out
}

} // verus!
