//! Decimal token parsing for the turn input: plain integers, possibly with a
//! leading minus sign, one token per input field.

use vstd::prelude::*;

verus! {

/// The value of a decimal digit character, or -1 for any other character.
pub open spec fn digit_val(c: char) -> int {
    if c == '0' {
        0
    } else if c == '1' {
        1
    } else if c == '2' {
        2
    } else if c == '3' {
        3
    } else if c == '4' {
        4
    } else if c == '5' {
        5
    } else if c == '6' {
        6
    } else if c == '7' {
        7
    } else if c == '8' {
        8
    } else if c == '9' {
        9
    } else {
        -1
    }
}

/// A non-empty run of decimal digits.
pub open spec fn is_digits(s: Seq<char>) -> bool {
    s.len() >= 1 && forall|i: int| 0 <= i < s.len() ==> #[trigger] digit_val(s[i]) >= 0
}

/// The value of a run of digits, most significant first.
pub open spec fn digits_val(s: Seq<char>) -> int
    decreases s.len(),
{
    if s.len() == 0 {
        0
    } else {
        digits_val(s.drop_last()) * 10 + digit_val(s.last())
    }
}

/// A decimal integer token: digits, or a minus sign followed by digits.
pub open spec fn is_int_token(s: Seq<char>) -> bool {
    is_digits(s) || (s.len() >= 2 && s[0] == '-' && is_digits(s.subrange(1, s.len() as int)))
}

/// The signed value of a decimal integer token.
pub open spec fn int_token_val(s: Seq<char>) -> int {
    if s.len() >= 1 && s[0] == '-' {
        -digits_val(s.subrange(1, s.len() as int))
    } else {
        digits_val(s)
    }
}

/// A digit run's value is non-negative and grows along prefixes.
pub proof fn lemma_digits_val_prefix(s: Seq<char>, i: int)
    requires
        0 <= i <= s.len(),
        forall|j: int| 0 <= j < s.len() ==> #[trigger] digit_val(s[j]) >= 0,
    ensures
        0 <= digits_val(s.take(i)) <= digits_val(s),
    decreases s.len() - i,
{
    if i == s.len() {
        assert(s.take(i) =~= s);
        lemma_digits_val_nonneg(s);
    } else {
        lemma_digits_val_prefix(s, i + 1);
        assert(s.take(i + 1).drop_last() =~= s.take(i));
        lemma_digits_val_nonneg(s.take(i));
    }
}

/// A digit run's value is never negative.
pub proof fn lemma_digits_val_nonneg(s: Seq<char>)
    requires
        forall|j: int| 0 <= j < s.len() ==> #[trigger] digit_val(s[j]) >= 0,
    ensures
        digits_val(s) >= 0,
    decreases s.len(),
{
    if s.len() > 0 {
        lemma_digits_val_nonneg(s.drop_last());
    }
}

/// The digit value of a character, or -1.
fn digit_of(c: char) -> (r: i32)
    ensures
        r == digit_val(c),
{
    match c {
        '0' => 0,
        '1' => 1,
        '2' => 2,
        '3' => 3,
        '4' => 4,
        '5' => 5,
        '6' => 6,
        '7' => 7,
        '8' => 8,
        '9' => 9,
        _ => -1,
    }
}

/// Parse a decimal integer token. Returns its value when the whole string is
/// a well-formed token whose value fits a 32-bit signed integer, and nothing
/// otherwise.
pub fn parse_int(s: &str) -> (r: Option<i64>)
    ensures
        r is Some <==> (is_int_token(s@) && -0x8000_0000 <= int_token_val(s@) < 0x8000_0000),
        r is Some ==> r->0 == int_token_val(s@),
{
    let len = s.unicode_len();
    if len == 0 {
        return None;
    }
    let negative = s.get_char(0) == '-';
    let start: usize = if negative {
        1
    } else {
        0
    };
    let ghost digits = if negative {
        s@.subrange(1, s@.len() as int)
    } else {
        s@
    };
    if start >= len {
        proof {
            assert(digit_val(s@[0]) == -1);
        }
        return None;
    }
    let mut acc: u64 = 0;
    let mut i: usize = start;
    while i < len
        invariant
            s@.len() == len,
            start <= i <= len,
            start <= 1,
            negative ==> start == 1 && s@[0] == '-',
            !negative ==> start == 0 && s@[0] != '-',
            digits == s@.subrange(start as int, len as int),
            digits.len() >= 1,
            forall|j: int| 0 <= j < i - start ==> #[trigger] digit_val(digits[j]) >= 0,
            acc == digits_val(digits.take(i - start)),
            acc <= 0x8000_0000,
        decreases len - i,
    {
        let c = s.get_char(i);
        let d = digit_of(c);
        if d < 0 {
            proof {
                assert(digits[i - start] == s@[i as int]);
                assert(!is_digits(digits));
                assert(!is_digits(s@) || negative);
            }
            return None;
        }
        proof {
            assert(digits.take(i - start + 1).drop_last() =~= digits.take(i - start));
            assert(digits.take(i - start + 1).last() == digits[i - start]);
        }
        let next = acc * 10 + (d as u64);
        if next > 0x8000_0000 {
            proof {
                let taken = i - start + 1;
                assert(digits_val(digits.take(taken)) == next);
                if is_int_token(s@) {
                    assert(is_digits(digits));
                    lemma_digits_val_prefix(digits, taken);
                    assert(digits_val(digits) >= next);
                    if negative {
                        assert(int_token_val(s@) == -digits_val(digits));
                        assert(int_token_val(s@) < -0x8000_0000);
                    } else {
                        assert(digits =~= s@);
                        assert(int_token_val(s@) == digits_val(s@));
                        assert(int_token_val(s@) >= 0x8000_0000);
                    }
                }
            }
            return None;
        }
        acc = next;
        i += 1;
    }
    proof {
        assert(digits.take(len - start) =~= digits);
        assert(is_digits(digits));
        assert(is_int_token(s@));
        lemma_digits_val_nonneg(digits);
    }
    if negative {
        Some(-(acc as i64))
    } else {
        if acc == 0x8000_0000 {
            proof {
                assert(int_token_val(s@) == 0x8000_0000);
            }
            None
        } else {
            Some(acc as i64)
        }
    }
}

} // verus!
