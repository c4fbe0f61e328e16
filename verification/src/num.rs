//! Decimal rendering and parsing of unsigned integers, as used by the record
//! codec for the `concurrentCount` field and by the duration formatter.
use vstd::prelude::*;

verus! {

pub open spec fn is_digit(b: u8) -> bool {
    48 <= b && b <= 57
}

pub open spec fn all_digits(s: Seq<u8>) -> bool {
    forall|i: int| 0 <= i < s.len() ==> is_digit(#[trigger] s[i])
}

/// Value of a byte sequence read as a decimal numeral (undefined garbage for
/// non-digit bytes; callers guard with `all_digits`).
pub open spec fn dec_val(s: Seq<u8>) -> int
    decreases s.len(),
{
    if s.len() == 0 {
        0
    } else {
        dec_val(s.drop_last()) * 10 + s.last() - 48
    }
}

/// Canonical decimal numeral of `n`, most significant digit first.
pub open spec fn dec_rep(n: nat) -> Seq<u8>
    decreases n,
{
    if n < 10 {
        seq![(48 + n) as u8]
    } else {
        dec_rep(n / 10).push((48 + n % 10) as u8)
    }
}

/// The numeral parse used by record decoding: an optional leading `+`, then
/// digits; anything else, or a value over `u32::MAX`, yields 0.
pub open spec fn parse_u32_or_zero(s: Seq<u8>) -> u32 {
    let t = if s.len() > 0 && s[0] == 43 {
        s.drop_first()
    } else {
        s
    };
    if t.len() > 0 && all_digits(t) && dec_val(t) <= u32::MAX {
        dec_val(t) as u32
    } else {
        0
    }
}

pub proof fn lemma_dec_val_nonneg(s: Seq<u8>)
    requires
        all_digits(s),
    ensures
        dec_val(s) >= 0,
    decreases s.len(),
{
    if s.len() > 0 {
        assert(all_digits(s.drop_last())) by {
            assert(forall|i: int|
                0 <= i < s.drop_last().len() ==> s.drop_last()[i] == #[trigger] s[i]);
        }
        lemma_dec_val_nonneg(s.drop_last());
        assert(dec_val(s.drop_last()) * 10 >= 0) by (nonlinear_arith)
            requires
                dec_val(s.drop_last()) >= 0,
        ;
    }
}

/// A decimal prefix never exceeds the value of the whole numeral.
pub proof fn lemma_dec_val_prefix(s: Seq<u8>, i: int)
    requires
        all_digits(s),
        0 <= i <= s.len(),
    ensures
        dec_val(s.subrange(0, i)) <= dec_val(s),
    decreases s.len() - i,
{
    if i == s.len() {
        assert(s.subrange(0, i) =~= s);
    } else {
        let p = s.subrange(0, i + 1);
        assert(all_digits(p)) by {
            assert(forall|j: int| 0 <= j < p.len() ==> p[j] == #[trigger] s[j]);
        }
        assert(p.drop_last() =~= s.subrange(0, i));
        lemma_dec_val_nonneg(s.subrange(0, i));
        assert(dec_val(s.subrange(0, i)) * 10 >= dec_val(s.subrange(0, i))) by (nonlinear_arith)
            requires
                dec_val(s.subrange(0, i)) >= 0,
        ;
        assert(dec_val(p) >= dec_val(s.subrange(0, i)));
        lemma_dec_val_prefix(s, i + 1);
        assert(s.subrange(0, i + 1) =~= p);
    }
}

/// Render `n` as decimal digits.
pub fn u64_to_dec(n: u64) -> (r: Vec<u8>)
    ensures
        r@ == dec_rep(n as nat),
    decreases n,
{
    if n < 10 {
        let mut v: Vec<u8> = Vec::new();
        v.push(48 + (n as u8));
        assert(v@ =~= dec_rep(n as nat));
        v
    } else {
        let mut v = u64_to_dec(n / 10);
        v.push(48 + ((n % 10) as u8));
        assert(v@ =~= dec_rep(n as nat));
        v
    }
}

/// Render `n` as decimal digits.
pub fn u32_to_dec(n: u32) -> (r: Vec<u8>)
    ensures
        r@ == dec_rep(n as nat),
{
    u64_to_dec(n as u64)
}

pub proof fn lemma_dec_rep_digits(n: nat)
    ensures
        dec_rep(n).len() >= 1,
        all_digits(dec_rep(n)),
    decreases n,
{
    if n >= 10 {
        lemma_dec_rep_digits(n / 10);
    }
}

pub proof fn lemma_dec_rep_val(n: nat)
    ensures
        dec_val(dec_rep(n)) == n,
    decreases n,
{
    if n < 10 {
        assert(dec_rep(n).drop_last() =~= Seq::<u8>::empty());
        assert(dec_rep(n).last() == (48 + n) as u8);
        assert(dec_val(dec_rep(n)) == dec_val(Seq::<u8>::empty()) * 10 + (48 + n) as u8 - 48);
    } else {
        lemma_dec_rep_val(n / 10);
        assert(dec_rep(n).drop_last() =~= dec_rep(n / 10));
        assert(dec_rep(n).last() == (48 + n % 10) as u8);
        assert(dec_val(dec_rep(n)) == (n / 10) * 10 + n % 10);
        vstd::arithmetic::div_mod::lemma_fundamental_div_mod(n as int, 10);
        assert((n / 10) * 10 + n % 10 == n) by (nonlinear_arith)
            requires
                n == 10 * ((n as int) / 10) + (n as int) % 10,
        ;
    }
}

/// Decoding the canonical numeral of a `u32` gives back the same value.
pub proof fn lemma_parse_dec_rep(n: u32)
    ensures
        parse_u32_or_zero(dec_rep(n as nat)) == n,
{
    lemma_dec_rep_digits(n as nat);
    lemma_dec_rep_val(n as nat);
    let s = dec_rep(n as nat);
    assert(is_digit(s[0]));
    assert(s[0] != 43);
}

/// Parse a numeral, defaulting to 0 as `parse_u32_or_zero` describes.
pub fn parse_u32(s: &Vec<u8>) -> (r: u32)
    ensures
        r == parse_u32_or_zero(s@),
{
    let len = s.len();
    let start: usize = if len > 0 && s[0] == 43 {
        1
    } else {
        0
    };
    let ghost t = if s@.len() > 0 && s@[0] == 43 {
        s@.drop_first()
    } else {
        s@
    };
    assert(t =~= s@.subrange(start as int, len as int));
    if start == len {
        return 0;
    }
    let mut val: u64 = 0;
    let mut i: usize = start;
    while i < len
        invariant
            start <= i <= len,
            len == s@.len(),
            start == 0 || start == 1,
            (start == 1) == (s@.len() > 0 && s@[0] == 43),
            t == s@.subrange(start as int, len as int),
            all_digits(t.subrange(0, i - start)),
            val == dec_val(t.subrange(0, i - start)),
            val <= u32::MAX,
        decreases len - i,
    {
        let b = s[i];
        if b < 48 || b > 57 {
            proof {
                assert(s@.drop_first() =~= s@.subrange(1, s@.len() as int));
                assert(s@ =~= s@.subrange(0, s@.len() as int));
                assert(t[i - start] == s@[i as int]);
                assert(!all_digits(t));
            }
            return 0;
        }
        let next: u64 = val * 10 + ((b - 48) as u64);
        proof {
            assert(t.subrange(0, i + 1 - start).drop_last() =~= t.subrange(0, i - start));
            assert(t.subrange(0, i + 1 - start).last() == s@[i as int]);
        }
        assert(all_digits(t.subrange(0, i + 1 - start)));
        assert(next == dec_val(t.subrange(0, i + 1 - start)));
        if next > 0xffff_ffff {
            proof {
                assert(s@.drop_first() =~= s@.subrange(1, s@.len() as int));
                assert(s@ =~= s@.subrange(0, s@.len() as int));
                if all_digits(t) {
                    lemma_dec_val_prefix(t, i + 1 - start);
                    assert(dec_val(t) > u32::MAX);
                }
            }
            return 0;
        }
        val = next;
        i += 1;
    }
    proof {
        assert(s@.drop_first() =~= s@.subrange(1, s@.len() as int));
        assert(s@ =~= s@.subrange(0, s@.len() as int));
        assert(t.subrange(0, t.len() as int) =~= t);
        assert(val == dec_val(t));
    }
    val as u32
}

} // verus!
