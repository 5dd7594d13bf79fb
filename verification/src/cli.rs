//! Numbers given on the command line.

use crate::text;
use crate::text::chars_of;
use vstd::prelude::*;
use vstd::string::*;

verus! {

/// The value of a decimal digit.
pub open spec fn digit_value(c: char) -> Option<nat> {
    if '0' <= c && c <= '9' {
        Some((c as int - '0' as int) as nat)
    } else {
        None
    }
}

/// The number that the characters, all of them digits, stand for.
pub open spec fn digits_value(s: Seq<char>) -> Option<nat>
    decreases s.len(),
{
    if s.len() == 0 {
        Some(0)
    } else {
        match (digits_value(s.drop_last()), digit_value(s.last())) {
            (Some(high), Some(low)) => Some(high * 10 + low),
            _ => None,
        }
    }
}

/// The number that the text stands for: one or more digits, after a plus sign or
/// none.
pub open spec fn number_of(s: Seq<char>) -> Option<nat> {
    let digits = if s.len() > 0 && s[0] == '+' {
        s.skip(1)
    } else {
        s
    };
    if digits.len() == 0 {
        None
    } else {
        digits_value(digits)
    }
}

/// The number in `s`, where it is at most `most`.
pub open spec fn number_up_to(s: Seq<char>, most: nat) -> Option<nat> {
    match number_of(s) {
        Some(n) if n <= most => Some(n),
        _ => None,
    }
}

/// What the last character multiplies a number by: a thousand, a million, a
/// milliard, or nothing.
pub open spec fn multiplier(s: Seq<char>) -> nat {
    if s.len() == 0 {
        1
    } else if s.last() == 'k' || s.last() == 'K' {
        1_000
    } else if s.last() == 'm' || s.last() == 'M' {
        1_000_000
    } else if s.last() == 'g' || s.last() == 'G' {
        1_000_000_000
    } else {
        1
    }
}

/// The amount that the text stands for, where both the number and the amount
/// are at most `most`.
pub open spec fn amount_up_to(s: Seq<char>, most: nat) -> Option<nat> {
    let number = if multiplier(s) == 1 {
        s
    } else {
        s.drop_last()
    };
    match number_up_to(number, most) {
        Some(n) if n * multiplier(s) <= most => Some(n * multiplier(s)),
        _ => None,
    }
}

/// More digits never make a smaller number.
proof fn lemma_digits_grow(s: Seq<char>, k: int)
    requires
        0 <= k <= s.len(),
        digits_value(s) is Some,
    ensures
        digits_value(s.take(k)) is Some,
        digits_value(s.take(k))->Some_0 <= digits_value(s)->Some_0,
    decreases s.len() - k,
{
    if k == s.len() {
        assert(s.take(k) =~= s);
    } else {
        lemma_digits_grow(s, k + 1);
        assert(s.take(k + 1).drop_last() =~= s.take(k));
    }
}

/// Reads the number in the characters from `from` up to `to`.
fn parse_number(chars: &Vec<char>, from: usize, to: usize, most: u64) -> (r: Option<u64>)
    requires
        from <= to <= chars@.len(),
    ensures
        match r {
            Some(n) => number_up_to(chars@.subrange(from as int, to as int), most as nat) == Some(
                n as nat,
            ),
            None => number_up_to(chars@.subrange(from as int, to as int), most as nat) is None,
        },
{
    let ghost s = chars@.subrange(from as int, to as int);
    let start: usize = if from < to && chars[from] == '+' {
        from + 1
    } else {
        from
    };
    let ghost digits = chars@.subrange(start as int, to as int);
    proof {
        assert(digits =~= (if s.len() > 0 && s[0] == '+' {
            s.skip(1)
        } else {
            s
        }));
    }
    if start == to {
        return None;
    }
    let mut value: u64 = 0;
    let mut i: usize = start;
    assert(digits.take(0) =~= Seq::empty());
    while i < to
        invariant
            start <= i <= to,
            to <= chars@.len(),
            start < to,
            digits == chars@.subrange(start as int, to as int),
            digits == (if s.len() > 0 && s[0] == '+' {
                s.skip(1)
            } else {
                s
            }),
            s == chars@.subrange(from as int, to as int),
            digits_value(digits.take(i - start)) == Some(value as nat),
            value <= most,
        decreases to - i,
    {
        let c = chars[i];
        proof {
            assert(digits.take(i - start + 1).drop_last() =~= digits.take(i - start));
            assert(digits.take(i - start + 1).last() == c);
            if digits_value(digits) is Some {
                lemma_digits_grow(digits, i - start + 1);
            }
        }
        if c < '0' || c > '9' {
            return None;
        }
        let low: u64 = (c as u32 - '0' as u32) as u64;
        if low > most || value > most / 10 || value * 10 > most - low {
            return None;
        }
        value = value * 10 + low;
        i = i + 1;
    }
    assert(digits.take(to - start) =~= digits);
    Some(value)
}

/// Reads an amount.
fn parse_amount(value: &str, most: u64) -> (r: Option<u64>)
    ensures
        match r {
            Some(n) => amount_up_to(value@, most as nat) == Some(n as nat),
            None => amount_up_to(value@, most as nat) is None,
        },
{
    let chars = chars_of(value);
    let len: usize = chars.len();
    let factor: u64 = if len == 0 {
        1
    } else {
        match chars[len - 1] {
            'k' | 'K' => 1_000,
            'm' | 'M' => 1_000_000,
            'g' | 'G' => 1_000_000_000,
            _ => 1,
        }
    };
    let end: usize = if factor == 1 {
        len
    } else {
        len - 1
    };
    proof {
        assert(chars@.subrange(0, end as int) =~= (if multiplier(value@) == 1 {
            value@
        } else {
            value@.drop_last()
        }));
    }
    match parse_number(&chars, 0, end, most) {
        None => None,
        Some(n) => match n.checked_mul(factor) {
            Some(amount) if amount <= most => Some(amount),
            _ => None,
        },
    }
}

/// A positive number.
pub fn parse_positive_usize(value: &str) -> (r: Result<usize, String>)
    ensures
        match number_up_to(value@, usize::MAX as nat) {
            None => r is Err && r->Err_0@ == "invalid positive integer: "@ + value@,
            Some(n) => if n == 0 {
                r is Err && r->Err_0@ == "value must be positive: "@ + value@
            } else {
                r is Ok && r->Ok_0 == n
            },
        },
{
    let chars = chars_of(value);
    assert(chars@.subrange(0, chars@.len() as int) =~= value@);
    match parse_number(&chars, 0, chars.len(), usize::MAX as u64) {
        None => Err(text::joined("invalid positive integer: ", value)),
        Some(0) => Err(text::joined("value must be positive: ", value)),
        Some(n) => Ok(n as usize),
    }
}

/// A number.
pub fn parse_usize(value: &str) -> (r: Result<usize, String>)
    ensures
        match number_up_to(value@, usize::MAX as nat) {
            None => r is Err && r->Err_0@ == "invalid integer: "@ + value@,
            Some(n) => r is Ok && r->Ok_0 == n,
        },
{
    let chars = chars_of(value);
    assert(chars@.subrange(0, chars@.len() as int) =~= value@);
    match parse_number(&chars, 0, chars.len(), usize::MAX as u64) {
        None => Err(text::joined("invalid integer: ", value)),
        Some(n) => Ok(n as usize),
    }
}

/// A number of bytes, with a decimal suffix or none: `64m` is 64 000 000.
pub fn parse_byte_size(value: &str) -> (r: Result<usize, String>)
    ensures
        match amount_up_to(value@, usize::MAX as nat) {
            None => r is Err && r->Err_0@ == "invalid size: "@ + value@,
            Some(n) => r is Ok && r->Ok_0 == n,
        },
{
    match parse_amount(value, usize::MAX as u64) {
        None => Err(text::joined("invalid size: ", value)),
        Some(n) => Ok(n as usize),
    }
}

/// A number of bytes per second, with a decimal suffix or none.
pub fn parse_data_rate(value: &str) -> (r: Result<u64, String>)
    ensures
        match amount_up_to(value@, u64::MAX as nat) {
            None => r is Err && r->Err_0@ == "invalid rate: "@ + value@,
            Some(n) => r is Ok && r->Ok_0 == n,
        },
{
    match parse_amount(value, u64::MAX) {
        None => Err(text::joined("invalid rate: ", value)),
        Some(n) => Ok(n),
    }
}

/// Reading a number back: the digits of a number stand for that number.
pub proof fn lemma_digits_read_back(n: nat)
    ensures
        digits_value(text::decimal(n)) == Some(n),
        text::decimal(n).len() > 0,
        digit_value(text::decimal(n)[0]) is Some,
        number_of(text::decimal(n)) == Some(n),
    decreases n,
{
    reveal_with_fuel(digits_value, 2);
    let s = text::decimal(n);
    if n < 10 {
        assert(s.drop_last() =~= Seq::empty());
        assert(s.last() == text::digit(n as int, false));
    } else {
        lemma_digits_read_back(n / 10);
        assert(s.drop_last() =~= text::decimal(n / 10));
        assert(s[0] == text::decimal(n / 10)[0]);
        assert(s.last() == text::digit((n % 10) as int, false));
    }
}

/// Different numbers have different digits.
pub proof fn lemma_decimal_is_injective(m: nat, n: nat)
    requires
        text::decimal(m) == text::decimal(n),
    ensures
        m == n,
{
    lemma_digits_read_back(m);
    lemma_digits_read_back(n);
}

/// A text is a number exactly where it is made of digits, one or more of them, after at
/// most one plus sign.
pub proof fn lemma_numbers_are_made_of_digits(s: Seq<char>)
    ensures
        ({
            let from: int = if s.len() > 0 && s[0] == '+' {
                1
            } else {
                0
            };
            number_of(s) is Some <==> s.len() > from && forall|i: int|
                from <= i < s.len() ==> '0' <= #[trigger] s[i] <= '9'
        }),
{
    let from: int = if s.len() > 0 && s[0] == '+' {
        1
    } else {
        0
    };
    let digits = s.skip(from);
    assert(from == 0 ==> digits =~= s);
    lemma_value_of_digits(digits);
    if s.len() > from {
        assert forall|i: int| from <= i < s.len() implies #[trigger] s[i] == digits[i - from] by {}
        assert forall|i: int| 0 <= i < digits.len() implies #[trigger] digits[i] == s[i + from] by {
        }
    }
}

proof fn lemma_value_of_digits(s: Seq<char>)
    ensures
        digits_value(s) is Some <==> forall|i: int|
            0 <= i < s.len() ==> '0' <= #[trigger] s[i] <= '9',
    decreases s.len(),
{
    if s.len() > 0 {
        let t = s.drop_last();
        lemma_value_of_digits(t);
        assert forall|i: int| 0 <= i < t.len() implies #[trigger] t[i] == s[i] by {}
        assert(s.last() == s[s.len() - 1]);
        if digits_value(s) is Some {
            assert forall|i: int| 0 <= i < s.len() implies '0' <= #[trigger] s[i] <= '9' by {
                if i < t.len() {
                    assert('0' <= t[i] <= '9');
                }
            }
        }
        if forall|i: int| 0 <= i < s.len() ==> '0' <= #[trigger] s[i] <= '9' {
            assert forall|i: int| 0 <= i < t.len() implies '0' <= #[trigger] t[i] <= '9' by {
                assert('0' <= s[i] <= '9');
            }
        }
    }
}

/// A digit behind a number is its last one: what stands before counts ten times. A plus
/// sign before a number makes no difference, but a second one does.
pub proof fn lemma_digits_count_by_place(s: Seq<char>, digit: char)
    requires
        '0' <= digit <= '9',
    ensures
        number_of(seq![digit]) == Some((digit as int - '0' as int) as nat),
        number_of(s) matches Some(n) ==> number_of(s.push(digit)) == Some(
            (10 * n + (digit as int - '0' as int)) as nat,
        ),
        number_of(s) is Some && s[0] != '+' ==> number_of(seq!['+'] + s) == number_of(s),
        number_of(s) is Some && s[0] == '+' ==> number_of(seq!['+'] + s) is None,
{
    reveal_with_fuel(digits_value, 2);
    assert(seq![digit].drop_last() =~= Seq::empty());
    if number_of(s) is Some {
        let t = s.push(digit);
        if s[0] == '+' {
            assert(t.skip(1).drop_last() =~= s.skip(1));
            lemma_numbers_are_made_of_digits(seq!['+'] + s);
            assert((seq!['+'] + s)[1] == '+');
        } else {
            assert(t.drop_last() =~= s);
            assert((seq!['+'] + s).skip(1) =~= s);
        }
    }
}

/// A number counts as it is, a thousandfold before `k`, a millionfold before `m` and a
/// milliardfold before `g`, of either case. Where the number or the amount is larger than
/// allowed, there is none.
pub proof fn lemma_suffixes_multiply(s: Seq<char>, n: nat, suffix: char, factor: nat, most: nat)
    requires
        number_of(s) == Some(n),
        (suffix == 'k' || suffix == 'K') && factor == 1_000 || (suffix == 'm' || suffix == 'M')
            && factor == 1_000_000 || (suffix == 'g' || suffix == 'G') && factor
            == 1_000_000_000,
    ensures
        number_up_to(s, most) == (if n <= most {
            Some(n)
        } else {
            None
        }),
        amount_up_to(s, most) == (if n <= most {
            Some(n)
        } else {
            None
        }),
        amount_up_to(s.push(suffix), most) == (if n * factor <= most {
            Some(n * factor)
        } else {
            None
        }),
{
    lemma_numbers_are_made_of_digits(s);
    assert(s.last() == s[s.len() - 1]);
    assert('0' <= s[s.len() - 1] <= '9');
    assert(s.push(suffix).drop_last() =~= s);
    assert(n * factor >= n) by (nonlinear_arith)
        requires
            n >= 0,
            factor >= 1,
    ;
}

/// Only the last character may be a suffix: without a number before it there is no
/// amount.
pub proof fn lemma_amounts_need_a_number(s: Seq<char>, most: nat)
    requires
        amount_up_to(s, most) is Some,
    ensures
        number_of(s) is Some || (s.len() > 0 && number_of(s.drop_last()) is Some && seq![
            'k',
            'K',
            'm',
            'M',
            'g',
            'G',
        ].contains(s.last())),
{
    let suffixes = seq!['k', 'K', 'm', 'M', 'g', 'G'];
    assert(suffixes[0] == 'k' && suffixes[1] == 'K' && suffixes[2] == 'm');
    assert(suffixes[3] == 'M' && suffixes[4] == 'g' && suffixes[5] == 'G');
}

} // verus!
