//! ASCII decimal numbers, as they appear in frame headers, ACKs and SYN-ACKs.

use vstd::prelude::*;

verus! {

/// ASCII code of the digit `d` (for `d < 10`).
pub open spec fn digit_byte(d: nat) -> u8 {
    (48 + d) as u8
}

/// True when `b` is an ASCII digit.
pub open spec fn is_digit(b: u8) -> bool {
    48 <= b <= 57
}

/// Decimal representation of `n`: most significant digit first, no leading zero
/// (`0` is written as a single `'0'`).
pub open spec fn decimal(n: nat) -> Seq<u8>
    decreases n,
{
    if n < 10 {
        seq![digit_byte(n)]
    } else {
        decimal(n / 10).push(digit_byte(n % 10))
    }
}

/// `decimal(n)`, left-padded with `'0'` up to `width` bytes when it is shorter.
pub open spec fn zero_padded(n: nat, width: nat) -> Seq<u8> {
    let d = decimal(n);
    if d.len() >= width {
        d
    } else {
        Seq::new((width - d.len()) as nat, |i: int| 48u8) + d
    }
}

/// Value of a string of ASCII digits (0 for the empty string).
pub open spec fn digits_value(s: Seq<u8>) -> nat
    decreases s.len(),
{
    if s.len() == 0 {
        0
    } else {
        digits_value(s.drop_last()) * 10 + (s.last() - 48) as nat
    }
}

/// True when every byte of `s` is an ASCII digit.
pub open spec fn all_digits(s: Seq<u8>) -> bool {
    forall|i: int| 0 <= i < s.len() ==> is_digit(#[trigger] s[i])
}

/// What parsing `s` as a signed 32-bit decimal integer gives: an optional `+` or `-`
/// followed by at least one digit, the value lying in the range of `i32`.
pub open spec fn parse_i32(s: Seq<u8>) -> Option<int> {
    if s.len() > 0 && (s[0] == 43u8 || s[0] == 45u8) {
        let rest = s.drop_first();
        if rest.len() > 0 && all_digits(rest) {
            if s[0] == 45u8 {
                if digits_value(rest) <= 0x8000_0000 {
                    Some(-(digits_value(rest) as int))
                } else {
                    None
                }
            } else if digits_value(rest) <= 0x7fff_ffff {
                Some(digits_value(rest) as int)
            } else {
                None
            }
        } else {
            None
        }
    } else if s.len() > 0 && all_digits(s) && digits_value(s) <= 0x7fff_ffff {
        Some(digits_value(s) as int)
    } else {
        None
    }
}

/// Appends the decimal representation of `n` to `out`.
pub fn push_decimal(n: u64, out: &mut Vec<u8>)
    ensures
        final(out)@ == old(out)@ + decimal(n as nat),
    decreases n,
{
    if n >= 10 {
        push_decimal(n / 10, out);
    }
    out.push(48 + (n % 10) as u8);
    proof {
        assert(old(out)@ + decimal(n as nat) =~= old(out)@ + (if n >= 10 { decimal((n / 10) as nat) } else { seq![] }).push(digit_byte((n % 10) as nat)));
    }
}


/// `10` to the power `k`.
pub open spec fn pow10(k: nat) -> nat
    decreases k,
{
    if k == 0 {
        1
    } else {
        10 * pow10((k - 1) as nat)
    }
}

proof fn lemma_digits_value_step(s: Seq<u8>, i: int)
    requires
        0 <= i < s.len(),
    ensures
        digits_value(s.subrange(0, i + 1)) == digits_value(s.subrange(0, i)) * 10 + (s[i] - 48) as nat,
{
    assert(s.subrange(0, i + 1).drop_last() =~= s.subrange(0, i));
}

/// Above both bounds of `i32` magnitudes: values are counted up to it and no further.
const CAP: u64 = 0x8000_0001;

/// Parses ASCII text as `str::parse::<i32>` does: `None` exactly when `parse_i32`
/// says the text is not a valid `i32`.
pub fn parse_i32_ascii(s: &[u8]) -> (r: Option<i32>)
    ensures
        r is Some <==> parse_i32(s@) is Some,
        r matches Some(v) ==> parse_i32(s@) == Some(v as int),
{
    let n = s.len();
    if n == 0 {
        return None;
    }
    let signed = s[0] == 43u8 || s[0] == 45u8;
    let negative = s[0] == 45u8;
    let start: usize = if signed { 1 } else { 0 };
    if start == n {
        return None;
    }
    let ghost body = s@.subrange(start as int, n as int);
    let mut i: usize = start;
    let mut acc: u64 = 0;
    while i < n
        invariant
            start <= i <= n,
            start == (if signed { 1usize } else { 0usize }),
            n > 0,
            signed == (s@[0] == 43u8 || s@[0] == 45u8),
            negative == (s@[0] == 45u8),
            n == s@.len(),
            body == s@.subrange(start as int, n as int),
            all_digits(body.subrange(0, i - start)),
            acc as nat == (if digits_value(body.subrange(0, i - start)) < CAP { digits_value(body.subrange(0, i - start)) } else { CAP as nat }),
        decreases n - i,
    {
        let b = s[i];
        if b < 48 || b > 57 {
            proof {
                assert(body[i - start] == b);
                assert(!all_digits(body));
                if signed {
                    assert(body =~= s@.drop_first());
                } else {
                    assert(body =~= s@);
                }
            }
            return None;
        }
        proof {
            lemma_digits_value_step(body, i - start);
            assert(body[i - start] == b);
        }
        let next = acc * 10 + (b - 48) as u64;
        acc = if next < CAP { next } else { CAP };
        i = i + 1;
        proof {
            assert forall|j: int| 0 <= j < i - start implies is_digit(#[trigger] body.subrange(0, i - start)[j]) by {
                if j < i - 1 - start {
                    assert(body.subrange(0, i - start)[j] == body.subrange(0, i - 1 - start)[j]);
                }
            }
        }
    }
    proof {
        assert(body.subrange(0, n - start) =~= body);
        if !signed {
            assert(body =~= s@);
        } else {
            assert(body =~= s@.drop_first());
        }
    }
    if negative {
        if acc <= 0x8000_0000 {
            Some((0 - (acc as i64)) as i32)
        } else {
            None
        }
    } else if acc <= 0x7fff_ffff {
        Some(acc as i32)
    } else {
        None
    }
}

/// The decimal representation of `n` reads back as `n`.
pub proof fn lemma_decimal_value(n: nat)
    ensures
        all_digits(decimal(n)),
        digits_value(decimal(n)) == n,
        decimal(n).len() >= 1,
    decreases n,
{
    if n >= 10 {
        lemma_decimal_value(n / 10);
        let d = decimal(n / 10);
        assert(decimal(n).drop_last() =~= d);
        assert(decimal(n).last() == digit_byte(n % 10));
        assert(digit_byte(n % 10) == 48 + n % 10);
        assert(digits_value(decimal(n)) == digits_value(d) * 10 + n % 10);
        assert((n / 10) * 10 + n % 10 == n) by (nonlinear_arith);
        assert forall|i: int| 0 <= i < decimal(n).len() implies is_digit(#[trigger] decimal(n)[i]) by {
            if i < d.len() {
                assert(decimal(n)[i] == d[i]);
            }
        }
    } else {
        assert(decimal(n).drop_last() =~= Seq::<u8>::empty());
        assert(digits_value(Seq::<u8>::empty()) == 0);
        assert(digit_byte(n) == 48 + n);
    }
}

/// `decimal(n)` has at most `k` digits exactly when `n < 10^k` (for `k >= 1`).
pub proof fn lemma_decimal_len(n: nat, k: nat)
    requires
        k >= 1,
        n < pow10(k),
    ensures
        decimal(n).len() <= k,
    decreases n,
{
    if n >= 10 {
        assert(pow10(k) == 10 * pow10((k - 1) as nat));
        if k == 1 {
            assert(pow10(0) == 1);
        } else {
            lemma_decimal_len(n / 10, (k - 1) as nat);
        }
    }
}

/// Leading zeros do not change the value of a digit string.
pub proof fn lemma_leading_zeros(z: nat, d: Seq<u8>)
    ensures
        digits_value(Seq::new(z, |i: int| 48u8) + d) == digits_value(d),
    decreases d.len(),
{
    let s = Seq::new(z, |i: int| 48u8) + d;
    if d.len() == 0 {
        assert(s =~= Seq::new(z, |i: int| 48u8));
        lemma_zeros_value(z);
    } else {
        assert(s.drop_last() =~= Seq::new(z, |i: int| 48u8) + d.drop_last());
        lemma_leading_zeros(z, d.drop_last());
    }
}

proof fn lemma_zeros_value(z: nat)
    ensures
        digits_value(Seq::new(z, |i: int| 48u8)) == 0,
    decreases z,
{
    if z > 0 {
        assert(Seq::new(z, |i: int| 48u8).drop_last() =~= Seq::new((z - 1) as nat, |i: int| 48u8));
        lemma_zeros_value((z - 1) as nat);
    }
}

/// A number written with zero padding reads back as itself.
pub proof fn lemma_zero_padded_value(n: nat, width: nat)
    ensures
        all_digits(zero_padded(n, width)),
        digits_value(zero_padded(n, width)) == n,
        zero_padded(n, width).len() >= width,
{
    lemma_decimal_value(n);
    let d = decimal(n);
    if d.len() < width {
        let z = Seq::new((width - d.len()) as nat, |i: int| 48u8);
        lemma_leading_zeros((width - d.len()) as nat, d);
        assert forall|i: int| 0 <= i < zero_padded(n, width).len() implies is_digit(#[trigger] zero_padded(n, width)[i]) by {
            if i >= z.len() {
                assert(zero_padded(n, width)[i] == d[i - z.len()]);
            }
        }
    }
}

}
