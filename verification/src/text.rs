//! Building and reading text.

use vstd::prelude::*;
use vstd::string::*;
use vstd::utf8::*;

verus! {

/// `String::push`: appends one character.
pub assume_specification[ String::push ](s: &mut String, ch: char)
    ensures
        final(s)@ == old(s)@.push(ch),
;

/// `String::from_utf8`: a string exactly where the bytes are valid UTF-8, and
/// then the one that they encode.
#[verifier::external_body]
pub(crate) fn string_from_utf8(bytes: Vec<u8>) -> (r: Option<String>)
    ensures
        r is Some <==> valid_utf8(bytes@),
        r is Some ==> r->Some_0@ == decode_utf8(bytes@),
{
    String::from_utf8(bytes).ok()
}

/// The two pieces in one string.
pub fn joined(a: &str, b: &str) -> (r: String)
    ensures
        r@ == a@ + b@,
{
    let mut s = a.to_owned();
    s.append(b);
    s
}

/// The digit for `d`, in base 16 with small or capital letters.
pub open spec fn digit(d: int, upper: bool) -> char {
    if d < 10 {
        (48 + d) as char
    } else if upper {
        (55 + d) as char
    } else {
        (87 + d) as char
    }
}

/// `n` in base 10, without leading zeros.
pub open spec fn decimal(n: nat) -> Seq<char>
    decreases n,
{
    if n < 10 {
        seq![digit(n as int, false)]
    } else {
        decimal(n / 10).push(digit((n % 10) as int, false))
    }
}

/// `n` in base 10, with a leading zero where it has one digit.
pub open spec fn two_digits(n: nat) -> Seq<char> {
    if n < 10 {
        seq!['0'] + decimal(n)
    } else {
        decimal(n)
    }
}

/// The last `k` digits of `n` in base 16.
pub open spec fn hex(n: nat, k: nat, upper: bool) -> Seq<char>
    decreases k,
{
    if k == 0 {
        Seq::empty()
    } else {
        hex(n / 16, (k - 1) as nat, upper).push(digit((n % 16) as int, upper))
    }
}

/// The digits in base 10: the last one stands for the remainder by ten, those before
/// it for the quotient, and there is no leading zero.
pub proof fn lemma_decimal_digits(n: nat)
    ensures
        decimal(n).len() > 0,
        decimal(n).last() as int == '0' as int + n % 10,
        n >= 10 ==> decimal(n).drop_last() == decimal(n / 10),
        n < 10 ==> decimal(n).len() == 1,
        n > 0 ==> decimal(n)[0] != '0',
        forall|i: int| 0 <= i < decimal(n).len() ==> '0' as int <= #[trigger] decimal(n)[i] as int
            <= '9' as int,
    decreases n,
{
    if n >= 10 {
        lemma_decimal_digits(n / 10);
        assert(decimal(n).drop_last() =~= decimal(n / 10));
        assert(decimal(n)[0] == decimal(n / 10)[0]);
        assert forall|i: int| 0 <= i < decimal(n).len() implies '0' as int
            <= #[trigger] decimal(n)[i] as int <= '9' as int by {
            if i < decimal(n).len() - 1 {
                assert(decimal(n)[i] == decimal(n / 10)[i]);
            }
        }
    }
}

/// Two digits are made of a number below a hundred, the tens first.
pub proof fn lemma_two_digits(n: nat)
    requires
        n < 100,
    ensures
        two_digits(n).len() == 2,
        two_digits(n)[0] as int == '0' as int + n / 10,
        two_digits(n)[1] as int == '0' as int + n % 10,
{
    reveal_with_fuel(decimal, 3);
}

/// The digits in base 16: the last one stands for the remainder by sixteen, those
/// before it for the quotient.
pub proof fn lemma_hex_digits(n: nat, k: nat, upper: bool)
    ensures
        hex(n, k, upper).len() == k,
        k > 0 ==> {
            let d = n % 16;
            let last = hex(n, k, upper).last() as int;
            &&& hex(n, k, upper).drop_last() == hex(n / 16, (k - 1) as nat, upper)
            &&& d < 10 ==> last == '0' as int + d
            &&& d >= 10 && upper ==> last == 'A' as int + d - 10
            &&& d >= 10 && !upper ==> last == 'a' as int + d - 10
        },
    decreases k,
{
    if k > 0 {
        lemma_hex_digits(n / 16, (k - 1) as nat, upper);
        assert(hex(n, k, upper).drop_last() =~= hex(n / 16, (k - 1) as nat, upper));
    }
}

/// The digit for `d`.
fn digit_char(d: u8, upper: bool) -> (r: char)
    requires
        d < 16,
    ensures
        r == digit(d as int, upper),
{
    if d < 10 {
        (48 + d) as char
    } else if upper {
        (55 + d) as char
    } else {
        (87 + d) as char
    }
}

/// Appends `n` in base 10.
pub fn push_decimal(s: &mut String, n: u64)
    ensures
        final(s)@ == old(s)@ + decimal(n as nat),
    decreases n,
{
    if n >= 10 {
        push_decimal(s, n / 10);
    }
    s.push(digit_char((n % 10) as u8, false));
    assert(s@ =~= old(s)@ + decimal(n as nat));
}

/// Appends `n` in base 10 with at least two digits.
pub fn push_two_digits(s: &mut String, n: u64)
    ensures
        final(s)@ == old(s)@ + two_digits(n as nat),
{
    if n < 10 {
        s.push('0');
    }
    push_decimal(s, n);
    assert(s@ =~= old(s)@ + two_digits(n as nat));
}

/// Appends the last `k` digits of `n` in base 16.
pub fn push_hex(s: &mut String, n: u32, k: u8, upper: bool)
    ensures
        final(s)@ == old(s)@ + hex(n as nat, k as nat, upper),
    decreases k,
{
    if k > 0 {
        push_hex(s, n / 16, k - 1, upper);
        s.push(digit_char((n % 16) as u8, upper));
    }
    assert(s@ =~= old(s)@ + hex(n as nat, k as nat, upper));
}

/// The characters of `s`.
pub fn chars_of(s: &str) -> (r: Vec<char>)
    ensures
        r@ == s@,
{
    let mut out: Vec<char> = Vec::new();
    for c in iter: s.chars()
        invariant
            out@ == s@.take(iter.index() as int),
            iter.seq() == s@,
    {
        out.push(c);
        assert(out@ =~= s@.take(iter.index() + 1));
    }
    assert(s@.take(s@.len() as int) =~= s@);
    out
}

/// The string made of the characters of `chars` from `from` up to `to`.
pub fn string_of(chars: &Vec<char>, from: usize, to: usize) -> (r: String)
    requires
        from <= to <= chars@.len(),
    ensures
        r@ == chars@.subrange(from as int, to as int),
{
    let mut s = String::new();
    let mut i: usize = from;
    while i < to
        invariant
            from <= i <= to,
            to <= chars@.len(),
            s@ == chars@.subrange(from as int, i as int),
        decreases to - i,
    {
        s.push(chars[i]);
        i = i + 1;
        assert(s@ =~= chars@.subrange(from as int, i as int));
    }
    s
}

/// Whether `c` is white space: the characters with the Unicode property
/// `White_Space`.
pub open spec fn is_space(c: char) -> bool {
    let n = c as int;
    ||| 0x09 <= n <= 0x0D
    ||| n == 0x20
    ||| n == 0x85
    ||| n == 0xA0
    ||| n == 0x1680
    ||| 0x2000 <= n <= 0x200A
    ||| n == 0x2028
    ||| n == 0x2029
    ||| n == 0x202F
    ||| n == 0x205F
    ||| n == 0x3000
}

/// Whether `c` is white space.
pub fn is_whitespace(c: char) -> (r: bool)
    ensures
        r == is_space(c),
        r == (c == ' ' || c == '\t' || c == '\n' || c == '\r' || c == '\u{b}' || c == '\u{c}' || c
            == '\u{85}' || c == '\u{a0}' || c == '\u{1680}' || '\u{2000}' as int <= c as int
            <= '\u{200a}' as int || c == '\u{2028}' || c == '\u{2029}' || c == '\u{202f}' || c
            == '\u{205f}' || c == '\u{3000}'),
{
    let n: u32 = c as u32;
    (0x09 <= n && n <= 0x0D) || n == 0x20 || n == 0x85 || n == 0xA0 || n == 0x1680 || (0x2000 <= n
        && n <= 0x200A) || n == 0x2028 || n == 0x2029 || n == 0x202F || n == 0x205F || n == 0x3000
}

/// `s` without the white space at its end.
pub open spec fn trimmed_end(s: Seq<char>) -> Seq<char>
    decreases s.len(),
{
    if s.len() > 0 && is_space(s.last()) {
        trimmed_end(s.drop_last())
    } else {
        s
    }
}

/// `s` without the white space at its start.
pub open spec fn trimmed_start(s: Seq<char>) -> Seq<char>
    decreases s.len(),
{
    if s.len() > 0 && is_space(s[0]) {
        trimmed_start(s.skip(1))
    } else {
        s
    }
}

/// `s` without white space at either end.
pub open spec fn trimmed(s: Seq<char>) -> Seq<char> {
    trimmed_end(trimmed_start(s))
}

/// What is trimmed is a stretch of the text, all white space around it, and neither
/// its first nor its last character is white space.
pub proof fn lemma_trimmed(s: Seq<char>) -> (bounds: (int, int))
    ensures
        ({
            let (from, to) = bounds;
            &&& 0 <= from <= to <= s.len()
            &&& trimmed(s) == s.subrange(from, to)
            &&& forall|i: int| 0 <= i < from ==> is_space(#[trigger] s[i])
            &&& forall|i: int| to <= i < s.len() ==> is_space(#[trigger] s[i])
            &&& from < to ==> !is_space(s[from]) && !is_space(s[to - 1])
        }),
{
    let from = lemma_trimmed_start(s);
    let rest = s.skip(from);
    let len = lemma_trimmed_end(rest);
    let to = from + len;
    assert(trimmed(s) =~= s.subrange(from, to));
    assert forall|i: int| to <= i < s.len() implies is_space(#[trigger] s[i]) by {
        assert(rest[i - from] == s[i]);
    }
    if from < to {
        assert(rest[0] == s[from] && rest[len - 1] == s[to - 1]);
        assert(s.skip(from)[0] == s[from]);
    }
    (from, to)
}

/// What is trimmed at the start.
proof fn lemma_trimmed_start(s: Seq<char>) -> (from: int)
    ensures
        0 <= from <= s.len(),
        trimmed_start(s) == s.skip(from),
        forall|i: int| 0 <= i < from ==> is_space(#[trigger] s[i]),
        from < s.len() ==> !is_space(s[from]),
    decreases s.len(),
{
    if s.len() > 0 && is_space(s[0]) {
        let rest = s.skip(1);
        let from = lemma_trimmed_start(rest) + 1;
        assert(s.skip(from) =~= rest.skip(from - 1));
        assert forall|i: int| 0 <= i < from implies is_space(#[trigger] s[i]) by {
            if i > 0 {
                assert(rest[i - 1] == s[i]);
            }
        }
        if from < s.len() {
            assert(rest[from - 1] == s[from]);
        }
        from
    } else {
        assert(s.skip(0) =~= s);
        0
    }
}

/// What is trimmed at the end.
proof fn lemma_trimmed_end(s: Seq<char>) -> (to: int)
    ensures
        0 <= to <= s.len(),
        trimmed_end(s) == s.take(to),
        forall|i: int| to <= i < s.len() ==> is_space(#[trigger] s[i]),
        to > 0 ==> !is_space(s[to - 1]),
    decreases s.len(),
{
    if s.len() > 0 && is_space(s.last()) {
        let rest = s.drop_last();
        let to = lemma_trimmed_end(rest);
        assert(s.take(to) =~= rest.take(to));
        assert forall|i: int| to <= i < s.len() implies is_space(#[trigger] s[i]) by {
            if i < rest.len() {
                assert(rest[i] == s[i]);
            }
        }
        to
    } else {
        assert(s.take(s.len() as int) =~= s);
        s.len() as int
    }
}

/// `s` without white space at either end.
pub fn trim(s: &str) -> (r: Vec<char>)
    ensures
        r@ == trimmed(s@),
{
    let chars = chars_of(s);
    let len: usize = chars.len();
    let mut from: usize = 0;
    assert(s@.skip(0) =~= s@);
    while from < len && is_whitespace(chars[from])
        invariant
            from <= len == chars@.len(),
            chars@ == s@,
            trimmed_start(s@) == trimmed_start(s@.skip(from as int)),
        decreases len - from,
    {
        assert(s@.skip(from as int).skip(1) =~= s@.skip(from + 1));
        from = from + 1;
    }
    let ghost start = s@.skip(from as int);
    assert(trimmed_start(s@) == start);
    let mut to: usize = len;
    assert(s@.subrange(from as int, to as int) =~= start);
    while from < to && is_whitespace(chars[to - 1])
        invariant
            from <= to <= len == chars@.len(),
            chars@ == s@,
            trimmed_end(start) == trimmed_end(s@.subrange(from as int, to as int)),
        decreases to - from,
    {
        assert(s@.subrange(from as int, to as int).drop_last() =~= s@.subrange(
            from as int,
            to - 1,
        ));
        to = to - 1;
    }
    assert(trimmed(s@) == s@.subrange(from as int, to as int));
    let mut out: Vec<char> = Vec::new();
    let mut i: usize = from;
    while i < to
        invariant
            from <= i <= to <= chars@.len(),
            chars@ == s@,
            out@ == s@.subrange(from as int, i as int),
        decreases to - i,
    {
        out.push(chars[i]);
        i = i + 1;
        assert(out@ =~= s@.subrange(from as int, i as int));
    }
    out
}

/// Numbers with more than two digits are shown as they are.
pub proof fn lemma_more_digits(n: nat)
    requires
        n >= 100,
    ensures
        two_digits(n) == decimal(n),
{
    reveal_with_fuel(decimal, 3);
}

} // verus!
