//! Decimal text of integers, as it appears on the wire.

use vstd::prelude::*;

verus! {

pub open spec fn is_digit(b: u8) -> bool {
    48 <= b <= 57
}

/// Every byte is an ASCII digit and there is at least one.
pub open spec fn all_digits(s: Seq<u8>) -> bool {
    s.len() > 0 && forall|i: int| 0 <= i < s.len() ==> is_digit(#[trigger] s[i])
}

/// The value of a run of digits, most significant first.
pub open spec fn digits_value(s: Seq<u8>) -> nat
    decreases s.len(),
{
    if s.len() == 0 {
        0
    } else {
        digits_value(s.drop_last()) * 10 + (s.last() - 48) as nat
    }
}

/// The value of a decimal text: an optional `-` followed by one or more digits.
pub open spec fn parse_int(s: Seq<u8>) -> Option<int> {
    if s.len() > 0 && s[0] == 45u8 && all_digits(s.drop_first()) {
        Some(-(digits_value(s.drop_first()) as int))
    } else if all_digits(s) {
        Some(digits_value(s) as int)
    } else {
        None
    }
}

/// The shortest digits of a natural number.
pub open spec fn digit_seq(n: nat) -> Seq<u8>
    decreases n,
{
    if n < 10 {
        seq![(48 + n) as u8]
    } else {
        digit_seq(n / 10).push((48 + n % 10) as u8)
    }
}

/// The canonical decimal text of an integer.
pub open spec fn decimal(n: int) -> Seq<u8> {
    if n < 0 {
        seq![45u8] + digit_seq((-n) as nat)
    } else {
        digit_seq(n as nat)
    }
}

pub open spec fn in_i64(n: int) -> bool {
    i64::MIN <= n <= i64::MAX
}

proof fn lemma_digit_seq(n: nat)
    ensures
        all_digits(digit_seq(n)),
        digits_value(digit_seq(n)) == n,
    decreases n,
{
    if n >= 10 {
        lemma_digit_seq(n / 10);
        let s = digit_seq(n);
        assert(s.drop_last() =~= digit_seq(n / 10));
        assert(s.last() == (48 + n % 10) as u8);
        assert(s.last() - 48 == n % 10);
        assert(n == (n / 10) * 10 + n % 10);
        assert(digits_value(s.drop_last()) == n / 10);
        assert(digits_value(s) == digits_value(s.drop_last()) * 10 + (s.last() - 48) as nat);
        assert(digits_value(s) == n);
        assert forall|i: int| 0 <= i < s.len() implies is_digit(#[trigger] s[i]) by {
            if i < s.len() - 1 {
                assert(s[i] == digit_seq(n / 10)[i]);
            }
        }
    } else {
        assert(digit_seq(n).drop_last() =~= Seq::<u8>::empty());
        assert(digits_value(digit_seq(n).drop_last()) == 0);
        assert(digit_seq(n).last() - 48 == n);
    }
}

/// The canonical text reads back as the integer it was made from.
pub proof fn lemma_parse_decimal(n: int)
    ensures
        parse_int(decimal(n)) == Some(n),
{
    if n < 0 {
        lemma_digit_seq((-n) as nat);
        let s = decimal(n);
        assert(s.drop_first() =~= digit_seq((-n) as nat));
    } else {
        lemma_digit_seq(n as nat);
        assert(digit_seq(n as nat)[0] != 45u8);
    }
}

pub open spec fn pow10(k: nat) -> nat
    decreases k,
{
    if k == 0 {
        1
    } else {
        10 * pow10((k - 1) as nat)
    }
}

proof fn lemma_digit_seq_len(n: nat, k: nat)
    requires
        k >= 1,
        n < pow10(k),
    ensures
        digit_seq(n).len() <= k,
    decreases k,
{
    if n >= 10 {
        assert(n / 10 < pow10((k - 1) as nat)) by (nonlinear_arith)
            requires
                n < 10 * pow10((k - 1) as nat),
        ;
        if k == 1 {
            assert(pow10(0) == 1);
        }
        lemma_digit_seq_len(n / 10, (k - 1) as nat);
    }
}

/// The text of an `i64` is at most twenty bytes long.
pub proof fn lemma_decimal_len(n: int)
    requires
        in_i64(n),
    ensures
        decimal(n).len() <= 20,
{
    reveal_with_fuel(pow10, 20);
    assert(pow10(19) == 10_000_000_000_000_000_000nat);
    if n < 0 {
        lemma_digit_seq_len((-n) as nat, 19);
    } else {
        lemma_digit_seq_len(n as nat, 19);
    }
}

proof fn lemma_digits_value_grows(s: Seq<u8>, k: int)
    requires
        0 <= k <= s.len(),
    ensures
        digits_value(s.subrange(0, k)) <= digits_value(s),
    decreases s.len(),
{
    if k < s.len() {
        assert(s.drop_last().subrange(0, k) =~= s.subrange(0, k));
        lemma_digits_value_grows(s.drop_last(), k);
    } else {
        assert(s.subrange(0, k) =~= s);
    }
}

/// Appends the digits of `n` to `out`.
pub fn push_digits(out: &mut Vec<u8>, n: u64)
    ensures
        final(out)@ == old(out)@ + digit_seq(n as nat),
    decreases n,
{
    if n >= 10 {
        push_digits(out, n / 10);
    }
    out.push((48 + n % 10) as u8);
    proof {
        if n >= 10 {
            assert(old(out)@ + digit_seq(n as nat) =~= old(out)@ + digit_seq((n / 10) as nat) + seq![(48 + n % 10) as u8]);
        } else {
            assert(old(out)@ + digit_seq(n as nat) =~= old(out)@ + seq![(48 + n % 10) as u8]);
        }
    }
}

/// Appends the canonical decimal text of `n` to `out`.
pub fn push_decimal(out: &mut Vec<u8>, n: i64)
    ensures
        final(out)@ == old(out)@ + decimal(n as int),
{
    if n < 0 {
        out.push(45u8);
        let mag: u64 = ((-(n as i128)) as u64);
        push_digits(out, mag);
        assert(old(out)@ + decimal(n as int) =~= old(out)@.push(45u8) + digit_seq(mag as nat));
    } else {
        push_digits(out, n as u64);
    }
}

/// Reads `s` as a decimal integer that fits in an `i64`.
pub fn parse_i64(s: &[u8]) -> (r: Option<i64>)
    ensures
        r == (match parse_int(s@) {
            Some(v) => if in_i64(v) { Some(v as i64) } else { None },
            None => None,
        }),
{
    let neg = s.len() > 0 && s[0] == 45u8;
    let start: usize = if neg { 1 } else { 0 };
    if start >= s.len() {
        proof {
            if neg {
                assert(s@.drop_first().len() == 0);
            }
        }
        return None;
    }
    let ghost digits = s@.subrange(start as int, s@.len() as int);
    let limit: u64 = 9_223_372_036_854_775_808;
    let mut acc: u64 = 0;
    let mut i: usize = start;
    while i < s.len()
        invariant
            start <= i <= s.len(),
            start < s.len(),
            neg == (s@.len() > 0 && s@[0] == 45u8),
            start == (if neg { 1usize } else { 0usize }),
            digits == s@.subrange(start as int, s@.len() as int),
            acc as nat == digits_value(s@.subrange(start as int, i as int)),
            acc <= limit,
            limit == 9_223_372_036_854_775_808u64,
            forall|j: int| start <= j < i ==> is_digit(#[trigger] s@[j]),
        decreases s.len() - i,
    {
        let b = s[i];
        if b < 48 || b > 57 {
            proof {
                assert(!is_digit(digits[i - start]));
                if neg {
                    assert(digits =~= s@.drop_first());
                    assert(!is_digit(s@.drop_first()[i - 1]));
                    assert(!is_digit(s@[0]));
                } else {
                    assert(digits =~= s@);
                    assert(!is_digit(s@[i as int]));
                }
            }
            return None;
        }
        let next: u128 = acc as u128 * 10 + (b - 48) as u128;
        proof {
            let p = s@.subrange(start as int, i as int + 1);
            assert(p.drop_last() =~= s@.subrange(start as int, i as int));
            assert(p.last() == b);
            assert(digits_value(p) == next);
        }
        if next > limit as u128 {
            proof {
                let p = s@.subrange(start as int, i as int + 1);
                assert(p =~= digits.subrange(0, i - start + 1));
                assert(digits_value(p) > limit);
                assert(digits_value(digits.subrange(0, i - start + 1)) > limit);
                lemma_digits_value_grows(digits, i - start + 1);
                assert(digits_value(digits) > limit);
                if neg {
                    assert(digits =~= s@.drop_first());
                    assert(!is_digit(s@[0]));
                    assert(!all_digits(s@));
                    if all_digits(digits) {
                        assert(parse_int(s@) == Some(-(digits_value(digits) as int)));
                        assert(!in_i64(-(digits_value(digits) as int)));
                    } else {
                        assert(parse_int(s@) is None);
                    }
                } else {
                    assert(digits =~= s@);
                    assert(s@[0] != 45u8);
                    if all_digits(digits) {
                        assert(parse_int(s@) == Some(digits_value(digits) as int));
                    } else {
                        assert(parse_int(s@) is None);
                    }
                }
            }
            return None;
        }
        acc = next as u64;
        i = i + 1;
    }
    proof {
        assert(s@.subrange(start as int, i as int) =~= digits);
        if neg {
            assert(digits =~= s@.drop_first());
        } else {
            assert(digits =~= s@);
        }
    }
    if neg {
        Some((-(acc as i128)) as i64)
    } else if acc > 9_223_372_036_854_775_807 {
        None
    } else {
        Some(acc as i64)
    }
}

} // verus!
