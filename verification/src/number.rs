//! Decimal notation of integers.
use vstd::prelude::*;

use crate::text::{chars_of, digit, is_digit};

verus! {

/// The digit character of `d`, for `d` below ten.
pub open spec fn digit_char(d: int) -> char {
    ((48 + d) as u8) as char
}

/// `n` in decimal notation, without leading zeros.
pub open spec fn decimal(n: nat) -> Seq<char>
    decreases n,
{
    if n < 10 {
        seq![digit_char(n as int)]
    } else {
        decimal(n / 10).push(digit_char((n % 10) as int))
    }
}

/// `n` in decimal notation, with a minus sign where it is negative.
pub open spec fn signed_decimal(n: int) -> Seq<char> {
    if n < 0 {
        "-"@ + decimal((-n) as nat)
    } else {
        decimal(n as nat)
    }
}

/// Writes a number in decimal notation.
pub fn show(n: u128) -> (r: String)
    ensures
        r@ == decimal(n as nat),
    decreases n,
{
    let d = (48 + (n % 10) as u8) as char;
    if n < 10 {
        let mut out = String::new();
        out.push(d);
        assert(out@ =~= seq![digit_char(n as int)]);
        out
    } else {
        let mut out = show(n / 10);
        out.push(d);
        out
    }
}

/// Writes a signed number in decimal notation.
pub fn show_signed(n: i128) -> (r: String)
    ensures
        r@ == signed_decimal(n as int),
{
    if n < 0 {
        let mut out = "-".to_owned();
        out.append(show((-(n + 1)) as u128 + 1).as_str());
        out
    } else {
        show(n as u128)
    }
}

/// Every character is an ASCII digit.
pub open spec fn all_digits(s: Seq<char>) -> bool {
    forall|i: int| 0 <= i < s.len() ==> is_digit(#[trigger] s[i])
}

/// The number that a row of digits denotes.
pub open spec fn digits_value(s: Seq<char>) -> nat
    decreases s.len(),
{
    if s.len() == 0 {
        0
    } else {
        (digits_value(s.drop_last()) * 10 + ((s.last() as u32) - 48)) as nat
    }
}

/// The number written in `s` as one or more digits, where it is at most `max`.
pub open spec fn number_in(s: Seq<char>, max: int) -> Option<int> {
    if s.len() > 0 && all_digits(s) && digits_value(s) <= max {
        Some(digits_value(s) as int)
    } else {
        None
    }
}

/// What a text means as a number from 0 to `max`: digits, after at most one plus sign.
pub open spec fn parsed_unsigned(s: Seq<char>, max: int) -> Option<int> {
    if s.len() > 0 && s[0] == '+' {
        number_in(s.skip(1), max)
    } else {
        number_in(s, max)
    }
}

/// What a text means as a number from `-max - 1` to `max`: digits, after at most one sign.
pub open spec fn parsed_signed(s: Seq<char>, max: int) -> Option<int> {
    if s.len() > 0 && s[0] == '-' {
        match number_in(s.skip(1), max + 1) {
            Some(n) => Some(-n),
            None => None,
        }
    } else {
        parsed_unsigned(s, max)
    }
}

proof fn lemma_digits_value_grows(s: Seq<char>, k: int)
    requires
        all_digits(s),
        0 <= k <= s.len(),
    ensures
        digits_value(s.take(k)) <= digits_value(s),
    decreases s.len() - k,
{
    if k == s.len() {
        assert(s.take(k) =~= s);
    } else {
        let t = s.take(k + 1);
        assert(t.drop_last() =~= s.take(k));
        assert(is_digit(s[k]));
        assert(t.last() == s[k]);
        lemma_digits_value_grows(s, k + 1);
    }
}

/// Reads `cs[from..]` as a row of digits of value at most `max`.
fn read_number(cs: &Vec<char>, from: usize, max: u64) -> (r: Option<u64>)
    requires
        from <= cs@.len(),
    ensures
        match r {
            Some(n) => number_in(cs@.skip(from as int), max as int) == Some(n as int),
            None => number_in(cs@.skip(from as int), max as int) is None,
        },
{
    let ghost s = cs@.skip(from as int);
    if from == cs.len() {
        return None;
    }
    let mut n: u128 = 0;
    let mut i: usize = from;
    while i < cs.len()
        invariant
            from <= i <= cs@.len(),
            s == cs@.skip(from as int),
            all_digits(s.take(i - from)),
            n == digits_value(s.take(i - from)),
            n <= max,
        decreases cs@.len() - i,
    {
        let c = cs[i];
        assert(s[i - from] == c);
        if !digit(c) {
            assert(!is_digit(s[i - from]));
            return None;
        }
        let ghost t = s.take(i - from + 1);
        assert(t.drop_last() =~= s.take(i - from));
        assert(all_digits(t)) by {
            assert forall|k: int| 0 <= k < t.len() implies is_digit(#[trigger] t[k]) by {
                if k < i - from {
                    assert(t[k] == s.take(i - from)[k]);
                }
            }
        }
        n = n * 10 + ((c as u32) - 48) as u128;
        if n > max as u128 {
            proof {
                if all_digits(s) {
                    lemma_digits_value_grows(s, i - from + 1);
                }
            }
            return None;
        }
        i += 1;
    }
    assert(s.take(s.len() as int) =~= s);
    Some(n as u64)
}

/// Reads an unsigned number of at most `max`.
pub fn parse_unsigned(s: &str, max: u64) -> (r: Option<u64>)
    ensures
        match r {
            Some(n) => parsed_unsigned(s@, max as int) == Some(n as int),
            None => parsed_unsigned(s@, max as int) is None,
        },
{
    let cs = chars_of(s);
    if cs.len() > 0 && cs[0] == '+' {
        read_number(&cs, 1, max)
    } else {
        assert(s@.skip(0) =~= s@);
        read_number(&cs, 0, max)
    }
}

/// Reads a `u64`.
pub fn parse_u64(s: &str) -> (r: Option<u64>)
    ensures
        match r {
            Some(n) => parsed_unsigned(s@, u64::MAX as int) == Some(n as int),
            None => parsed_unsigned(s@, u64::MAX as int) is None,
        },
{
    parse_unsigned(s, u64::MAX)
}

/// Reads a `usize`.
pub fn parse_usize(s: &str) -> (r: Option<usize>)
    ensures
        match r {
            Some(n) => parsed_unsigned(s@, usize::MAX as int) == Some(n as int),
            None => parsed_unsigned(s@, usize::MAX as int) is None,
        },
{
    match parse_unsigned(s, usize::MAX as u64) {
        Some(n) => Some(n as usize),
        None => None,
    }
}

/// Reads an `i64`.
pub fn parse_i64(s: &str) -> (r: Option<i64>)
    ensures
        match r {
            Some(n) => parsed_signed(s@, i64::MAX as int) == Some(n as int),
            None => parsed_signed(s@, i64::MAX as int) is None,
        },
{
    let cs = chars_of(s);
    if cs.len() > 0 && cs[0] == '-' {
        match read_number(&cs, 1, 0x8000_0000_0000_0000) {
            Some(n) => Some((-(n as i128)) as i64),
            None => None,
        }
    } else {
        match parse_unsigned(s, 0x7fff_ffff_ffff_ffff) {
            Some(n) => Some(n as i64),
            None => None,
        }
    }
}

/// Writing a number and reading it back gives the number.
pub proof fn decimal_reads_back(n: nat)
    ensures
        decimal(n).len() > 0,
        all_digits(decimal(n)),
        digits_value(decimal(n)) == n,
    decreases n,
{
    let s = decimal(n);
    if n < 10 {
        assert(s.drop_last() =~= Seq::empty());
        assert(digits_value(s.drop_last()) == 0);
    } else {
        decimal_reads_back(n / 10);
        assert(s.drop_last() =~= decimal(n / 10));
        assert forall|k: int| 0 <= k < s.len() implies is_digit(#[trigger] s[k]) by {
            if k < s.len() - 1 {
                assert(s[k] == decimal(n / 10)[k]);
            }
        }
    }
}

/// Different numbers are written differently.
pub proof fn decimal_is_injective(a: nat, b: nat)
    requires
        decimal(a) == decimal(b),
    ensures
        a == b,
{
    decimal_reads_back(a);
    decimal_reads_back(b);
}

/// A number has no zeros before it, and each digit more is worth ten times what
/// stands before it.
pub proof fn decimal_counts_in_tens(n: nat, d: nat)
    requires
        d < 10,
    ensures
        n > 0 ==> decimal(n)[0] != '0',
        n > 0 ==> decimal(n * 10 + d) == decimal(n) + decimal(d),
        decimal(d) == seq![
            if d == 0 {
                '0'
            } else if d == 1 {
                '1'
            } else if d == 2 {
                '2'
            } else if d == 3 {
                '3'
            } else if d == 4 {
                '4'
            } else if d == 5 {
                '5'
            } else if d == 6 {
                '6'
            } else if d == 7 {
                '7'
            } else if d == 8 {
                '8'
            } else {
                '9'
            },
        ],
    decreases n,
{
    if n > 0 {
        assert(decimal(n) + decimal(d) =~= decimal(n).push(digit_char(d as int)));
        if n >= 10 {
            decimal_counts_in_tens(n / 10, d);
            decimal_reads_back(n / 10);
            assert(decimal(n)[0] == decimal(n / 10)[0]);
        }
    }
}

/// A signed number that fits reads back as itself: a minus sign stands for the
/// negative.
pub proof fn signed_decimal_reads_back(n: int, max: int)
    requires
        -max - 1 <= n <= max,
    ensures
        parsed_signed(signed_decimal(n), max) == Some(n),
        n >= 0 ==> parsed_unsigned(signed_decimal(n), max) == Some(n),
        n < 0 ==> signed_decimal(n) == "-"@ + decimal((-n) as nat) && parsed_unsigned(
            signed_decimal(n),
            max,
        ) is None,
{
    reveal_strlit("-");
    if n < 0 {
        let d = decimal((-n) as nat);
        decimal_reads_back((-n) as nat);
        assert(("-"@ + d).skip(1) =~= d);
        assert(("-"@ + d)[0] == '-');
        assert(!is_digit(("-"@ + d)[0]));
    } else {
        decimal_reads_back(n as nat);
        assert(is_digit(decimal(n as nat)[0]));
    }
}

/// Only digits, behind at most one sign, are a number, and only up to the bound.
pub proof fn other_texts_are_no_numbers(s: Seq<char>, max: int, k: int)
    requires
        0 <= k < s.len(),
        !is_digit(s[k]),
        k > 0 || s[0] != '+',
    ensures
        parsed_unsigned(s, max) is None,
        k > 0 || s[0] != '-' ==> parsed_signed(s, max) is None,
        parsed_unsigned(""@, max) is None,
        parsed_unsigned("+"@, max) is None,
{
    reveal_strlit("");
    reveal_strlit("+");
    let t = s.skip(1);
    if k > 0 {
        assert(t[k - 1] == s[k]);
        assert(!is_digit(t[k - 1]));
    }
}

/// A row of digits beyond the bound is refused.
pub proof fn large_numbers_are_refused(n: nat, max: int)
    ensures
        parsed_unsigned(decimal(n), max) == if n <= max {
            Some(n as int)
        } else {
            None
        },
{
    decimal_reads_back(n);
    assert(is_digit(decimal(n)[0]));
}

} // verus!
