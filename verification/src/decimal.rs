//! Decimal text: how integers are written on the wire and in stored values.

use vstd::prelude::*;

verus! {

/// The byte `-`.
pub const MINUS: u8 = 45;

/// The byte `+`.
pub const PLUS: u8 = 43;

/// The byte `0`.
pub const ZERO: u8 = 48;

/// Whether `b` is one of the bytes `0` to `9`.
pub open spec fn is_digit(b: u8) -> bool {
    48 <= b <= 57
}

/// The byte that writes the digit `d`.
pub open spec fn digit(d: nat) -> u8
    recommends
        d < 10,
{
    (48 + d) as u8
}

/// A natural number in decimal: most significant digit first, no leading
/// zero but for zero itself.
pub open spec fn nat_digits(n: nat) -> Seq<u8>
    decreases n,
{
    if n < 10 {
        seq![digit(n)]
    } else {
        nat_digits(n / 10).push(digit(n % 10))
    }
}

/// An integer in decimal: `-` before the digits of a negative number.
pub open spec fn int_digits(i: int) -> Seq<u8> {
    if i < 0 {
        seq![45u8] + nat_digits((-i) as nat)
    } else {
        nat_digits(i as nat)
    }
}

/// Whether every byte of `s` is a digit.
pub open spec fn all_digits(s: Seq<u8>) -> bool {
    forall|i: int| 0 <= i < s.len() ==> is_digit(#[trigger] s[i])
}

/// The number that a run of digits writes; leading zeros count for nothing.
pub open spec fn digits_value(s: Seq<u8>) -> nat
    decreases s.len(),
{
    if s.len() == 0 {
        0
    } else {
        digits_value(s.drop_last()) * 10 + (s.last() - 48) as nat
    }
}

/// How many bytes of `s` are a leading sign: one for `+` or `-`, else none.
pub open spec fn sign_len(s: Seq<u8>) -> int {
    if s.len() > 0 && (s[0] == 43 || s[0] == 45) {
        1
    } else {
        0
    }
}

/// The integer that a signed decimal text writes: an optional `+` or `-`,
/// then at least one digit and nothing else. `None` for any other text.
pub open spec fn parse_int(s: Seq<u8>) -> Option<int> {
    let body = s.skip(sign_len(s));
    if body.len() == 0 || !all_digits(body) {
        None
    } else if s[0] == 45 {
        Some(-(digits_value(body) as int))
    } else {
        Some(digits_value(body) as int)
    }
}

/// The 64-bit integer that a signed decimal text writes; `None` where the
/// text is no integer or the integer does not fit.
pub open spec fn parse_i64(s: Seq<u8>) -> Option<i64> {
    match parse_int(s) {
        Some(v) => if i64::MIN <= v <= i64::MAX {
            Some(v as i64)
        } else {
            None
        },
        None => None,
    }
}

/// A run of digits writes at least what any prefix of it writes.
pub proof fn lemma_prefix_value(s: Seq<u8>, k: int)
    requires
        all_digits(s),
        0 <= k <= s.len(),
    ensures
        digits_value(s.take(k)) <= digits_value(s),
    decreases s.len() - k,
{
    if k == s.len() {
        assert(s.take(k) =~= s);
    } else {
        lemma_prefix_value(s, k + 1);
        assert(s.take(k + 1).drop_last() =~= s.take(k));
        assert(is_digit(s.take(k + 1).last()));
    }
}

/// The digits of a number are digits, at least one, and write that number.
pub proof fn lemma_nat_digits(n: nat)
    ensures
        nat_digits(n).len() >= 1,
        all_digits(nat_digits(n)),
        digits_value(nat_digits(n)) == n,
    decreases n,
{
    if n < 10 {
        let s = nat_digits(n);
        assert(s.drop_last() =~= Seq::<u8>::empty());
        assert(digits_value(s.drop_last()) == 0);
    } else {
        lemma_nat_digits(n / 10);
        let s = nat_digits(n);
        assert(s.drop_last() =~= nat_digits(n / 10));
        assert(s.last() == digit(n % 10));
    }
}

/// Reading back the decimal text of an integer gives that integer.
pub proof fn lemma_parse_int_digits(i: int)
    ensures
        parse_int(int_digits(i)) == Some(i),
{
    if i < 0 {
        let n = (-i) as nat;
        lemma_nat_digits(n);
        let s = int_digits(i);
        assert(s[0] == 45);
        assert(s.skip(1) =~= nat_digits(n));
    } else {
        let n = i as nat;
        lemma_nat_digits(n);
        let s = int_digits(i);
        assert(is_digit(s[0]));
        assert(s.skip(0) =~= s);
    }
}

/// Decimal text holds digits and `-` only.
pub proof fn lemma_int_digits_bytes(i: int)
    ensures
        forall|j: int|
            0 <= j < int_digits(i).len() ==> {
                let b = #[trigger] int_digits(i)[j];
                is_digit(b) || b == 45
            },
{
    if i < 0 {
        lemma_nat_digits((-i) as nat);
    } else {
        lemma_nat_digits(i as nat);
    }
}

/// Appends the decimal digits of `n` to `out`.
pub fn push_nat(out: &mut Vec<u8>, n: u64)
    ensures
        final(out)@ == old(out)@ + nat_digits(n as nat),
    decreases n,
{
    if n >= 10 {
        push_nat(out, n / 10);
    }
    let d: u8 = (n % 10) as u8;
    out.push(ZERO + d);
    assert(final(out)@ =~= old(out)@ + nat_digits(n as nat)) by {
        assert(out@ =~= old(out)@ + nat_digits(n as nat));
    }
}

/// Appends the decimal text of `i` to `out`.
pub fn push_int(out: &mut Vec<u8>, i: i64)
    ensures
        final(out)@ == old(out)@ + int_digits(i as int),
{
    if i < 0 {
        out.push(MINUS);
        let magnitude: u64 = if i == i64::MIN {
            9223372036854775808u64
        } else {
            (-i) as u64
        };
        push_nat(out, magnitude);
        assert(out@ =~= old(out)@ + int_digits(i as int));
    } else {
        push_nat(out, i as u64);
    }
}

/// The decimal text of `i`.
pub fn to_decimal(i: i64) -> (text: Vec<u8>)
    ensures
        text@ == int_digits(i as int),
{
    let mut text: Vec<u8> = Vec::new();
    push_int(&mut text, i);
    assert(text@ =~= int_digits(i as int));
    text
}

/// Reads a signed decimal text as a 64-bit integer.
pub fn parse_decimal(text: &[u8]) -> (r: Option<i64>)
    ensures
        r == parse_i64(text@),
{
    let n = text.len();
    if n == 0 {
        return None;
    }
    let negative = text[0] == MINUS;
    let start: usize = if negative || text[0] == PLUS {
        1
    } else {
        0
    };
    let ghost body = text@.skip(start as int);
    if start == n {
        return None;
    }
    let mut acc: i64 = 0;
    let mut i: usize = start;
    assert(body.take(0) =~= Seq::<u8>::empty());
    while i < n
        invariant
            n == text.len(),
            start <= i <= n,
            start == sign_len(text@),
            negative == (text@[0] == 45),
            body == text@.skip(start as int),
            all_digits(body.take(i - start)),
            negative ==> acc == -(digits_value(body.take(i - start)) as int),
            !negative ==> acc == digits_value(body.take(i - start)),
        decreases n - i,
    {
        let b = text[i];
        assert(b == body[i - start]);
        if b < 48 || b > 57 {
            return None;
        }
        let d: i64 = (b - ZERO) as i64;
        proof {
            let next = body.take(i + 1 - start);
            assert(next.drop_last() =~= body.take(i - start));
            assert(next.last() == b);
            assert(digits_value(next) == digits_value(body.take(i - start)) * 10 + d);
            assert forall|j: int| 0 <= j < next.len() implies is_digit(#[trigger] next[j]) by {
                if j < i - start {
                    assert(next[j] == body.take(i - start)[j]);
                }
            }
            if all_digits(body) {
                lemma_prefix_value(body, i + 1 - start);
            }
        }
        let scaled = match acc.checked_mul(10) {
            Some(m) => m,
            None => {
                return None;
            },
        };
        let next = if negative {
            scaled.checked_sub(d)
        } else {
            scaled.checked_add(d)
        };
        match next {
            Some(v) => {
                acc = v;
            },
            None => {
                return None;
            },
        }
        i += 1;
    }
    assert(body.take(n - start) =~= body);
    Some(acc)
}

} // verus!
