//! Whole numbers in text: writing them in decimal, reading them in decimal and hexadecimal.
use vstd::prelude::*;
use vstd::slice::slice_subrange;

use crate::text::{chars_of, digit, is_digit};

verus! {

/// The digit that stands for `d`, for `d` below ten.
pub open spec fn digit_char(d: nat) -> char {
    (48 + d) as char
}

/// What the ASCII digit `c` stands for.
pub open spec fn digit_value(c: char) -> nat {
    (c as u32 - 48) as nat
}

/// `n` in decimal, without leading zeros.
pub open spec fn decimal(n: nat) -> Seq<char>
    decreases n,
{
    if n < 10 {
        seq![digit_char(n)]
    } else {
        decimal(n / 10).push(digit_char(n % 10))
    }
}

/// `n` in decimal, with a minus sign where it is negative.
pub open spec fn signed_decimal(n: int) -> Seq<char> {
    if n < 0 {
        seq!['-'] + decimal((-n) as nat)
    } else {
        decimal(n as nat)
    }
}

/// `n` in decimal, with a zero before a single digit.
pub open spec fn two_digits(n: nat) -> Seq<char> {
    if n < 10 {
        seq!['0'] + decimal(n)
    } else {
        decimal(n)
    }
}

/// Whether `s` holds nothing but ASCII digits.
pub open spec fn all_digits(s: Seq<char>) -> bool {
    forall|i: int| 0 <= i < s.len() ==> is_digit(#[trigger] s[i])
}

/// The number that the digits of `s` stand for.
pub open spec fn number(s: Seq<char>) -> nat
    decreases s.len(),
{
    if s.len() == 0 {
        0
    } else {
        number(s.drop_last()) * 10 + digit_value(s.last())
    }
}

/// `s` without a plus sign at its start.
pub open spec fn unsigned_part(s: Seq<char>) -> Seq<char> {
    if s.len() > 0 && s.first() == '+' {
        s.drop_first()
    } else {
        s
    }
}

/// The number that `s` is the decimal form of: digits, and perhaps a plus sign before them.
pub open spec fn parse_nat(s: Seq<char>) -> Option<nat> {
    let body = unsigned_part(s);
    if body.len() > 0 && all_digits(body) {
        Some(number(body))
    } else {
        None
    }
}

/// The number that `s` is the decimal form of, where it is at most `max`.
pub open spec fn parse_up_to(s: Seq<char>, max: nat) -> Option<nat> {
    match parse_nat(s) {
        Some(v) => if v <= max {
            Some(v)
        } else {
            None
        },
        None => None,
    }
}

/// The number that `s` is the decimal form of, where it fits in 32 bits with a sign.
pub open spec fn parse_signed(s: Seq<char>) -> Option<int> {
    if s.len() > 0 && s.first() == '-' {
        let body = s.drop_first();
        if body.len() > 0 && all_digits(body) && number(body) <= 0x8000_0000 {
            Some(-(number(body) as int))
        } else {
            None
        }
    } else {
        match parse_up_to(s, 0x7fff_ffff) {
            Some(v) => Some(v as int),
            None => None,
        }
    }
}

/// Whether `c` is a hexadecimal digit.
pub open spec fn is_hex(c: char) -> bool {
    '0' <= c <= '9' || 'a' <= c <= 'f' || 'A' <= c <= 'F'
}

/// What the hexadecimal digit `c` stands for.
pub open spec fn hex_value(c: char) -> nat {
    if '0' <= c <= '9' {
        (c as u32 - 48) as nat
    } else if 'a' <= c <= 'f' {
        (c as u32 - 87) as nat
    } else {
        (c as u32 - 55) as nat
    }
}

/// Whether `s` holds nothing but hexadecimal digits.
pub open spec fn all_hex(s: Seq<char>) -> bool {
    forall|i: int| 0 <= i < s.len() ==> is_hex(#[trigger] s[i])
}

/// The number that the hexadecimal digits of `s` stand for.
pub open spec fn hex_number(s: Seq<char>) -> nat
    decreases s.len(),
{
    if s.len() == 0 {
        0
    } else {
        hex_number(s.drop_last()) * 16 + hex_value(s.last())
    }
}

/// The number that `s` is the hexadecimal form of, where it is at most `max`.
pub open spec fn parse_hex(s: Seq<char>, max: nat) -> Option<nat> {
    let body = unsigned_part(s);
    if body.len() > 0 && all_hex(body) && hex_number(body) <= max {
        Some(hex_number(body))
    } else {
        None
    }
}

// ---------------------------------------------------------------------------------------------
// Writing
// ---------------------------------------------------------------------------------------------
/// `n` in decimal.
pub fn decimal_of(n: u64) -> (r: String)
    ensures
        r@ == decimal(n as nat),
    decreases n,
{
    let mut s = if n < 10 {
        String::new()
    } else {
        decimal_of(n / 10)
    };
    let d: u8 = (n % 10) as u8;
    s.push((48 + d) as char);
    s
}

/// `n` in decimal, with its sign.
pub fn signed_decimal_of(n: i32) -> (r: String)
    ensures
        r@ == signed_decimal(n as int),
{
    if n < 0 {
        let mut s = String::new();
        s.push('-');
        let m: u64 = (-(n as i64)) as u64;
        let d = decimal_of(m);
        s.append(d.as_str());
        s
    } else {
        decimal_of(n as u64)
    }
}

/// `n` in decimal, with a zero before a single digit.
pub fn two_digits_of(n: u64) -> (r: String)
    ensures
        r@ == two_digits(n as nat),
{
    if n < 10 {
        let mut s = String::new();
        s.push('0');
        let d = decimal_of(n);
        s.append(d.as_str());
        s
    } else {
        decimal_of(n)
    }
}

// ---------------------------------------------------------------------------------------------
// Reading
// ---------------------------------------------------------------------------------------------
/// A number is no smaller than the number that its first digits stand for.
proof fn lemma_number_prefix(s: Seq<char>, i: int)
    requires
        0 <= i <= s.len(),
    ensures
        number(s.take(i)) <= number(s),
    decreases s.len(),
{
    if i == s.len() {
        assert(s.take(i) == s);
    } else {
        lemma_number_prefix(s.drop_last(), i);
        assert(s.drop_last().take(i) == s.take(i));
    }
}

/// A number is no smaller than the number that its first hexadecimal digits stand for.
proof fn lemma_hex_number_prefix(s: Seq<char>, i: int)
    requires
        0 <= i <= s.len(),
    ensures
        hex_number(s.take(i)) <= hex_number(s),
    decreases s.len(),
{
    if i == s.len() {
        assert(s.take(i) == s);
    } else {
        lemma_hex_number_prefix(s.drop_last(), i);
        assert(s.drop_last().take(i) == s.take(i));
    }
}

/// The number that the digits `cs` stand for, where there are any and it is at most `max`.
fn digits_up_to(cs: &[char], max: u64) -> (r: Option<u64>)
    ensures
        r == (if cs@.len() > 0 && all_digits(cs@) && number(cs@) <= max {
            Some(number(cs@) as u64)
        } else {
            None
        }),
{
    let n: usize = cs.len();
    if n == 0 {
        return None;
    }
    let mut v: u64 = 0;
    for i in 0..n
        invariant
            n == cs@.len(),
            v == number(cs@.take(i as int)),
            v <= max,
            forall|j: int| 0 <= j < i ==> is_digit(#[trigger] cs@[j]),
    {
        let c = cs[i];
        if !digit(c) {
            return None;
        }
        let d: u64 = (c as u8 - 48) as u64;
        assert(cs@.take(i + 1).drop_last() == cs@.take(i as int));
        assert(number(cs@.take(i + 1)) == v * 10 + d);
        if v > (u64::MAX - d) / 10 || v * 10 + d > max {
            proof {
                lemma_number_prefix(cs@, i + 1);
            }
            return None;
        }
        v = v * 10 + d;
    }
    assert(cs@.take(n as int) == cs@);
    Some(v)
}

/// `cs` without a plus sign at its start.
fn without_plus(cs: &[char]) -> (r: &[char])
    ensures
        r@ == unsigned_part(cs@),
{
    let n: usize = cs.len();
    if n > 0 && cs[0] == '+' {
        assert(cs@.subrange(1, n as int) == cs@.drop_first());
        slice_subrange(cs, 1, n)
    } else {
        cs
    }
}

/// The number that `cs` is the decimal form of, where it is at most `max`.
pub fn read_up_to(cs: &[char], max: u64) -> (r: Option<u64>)
    ensures
        match r {
            Some(v) => parse_up_to(cs@, max as nat) == Some(v as nat),
            None => parse_up_to(cs@, max as nat) is None,
        },
{
    digits_up_to(without_plus(cs), max)
}

/// The number that `cs` is the decimal form of, where it fits in 32 bits with a sign.
pub fn read_signed(cs: &[char]) -> (r: Option<i32>)
    ensures
        match r {
            Some(v) => parse_signed(cs@) == Some(v as int),
            None => parse_signed(cs@) is None,
        },
{
    let n: usize = cs.len();
    if n > 0 && cs[0] == '-' {
        assert(cs@.subrange(1, n as int) == cs@.drop_first());
        match digits_up_to(slice_subrange(cs, 1, n), 0x8000_0000) {
            Some(v) => {
                let w: i64 = -(v as i64);
                Some(w as i32)
            },
            None => None,
        }
    } else {
        match read_up_to(cs, 0x7fff_ffff) {
            Some(v) => Some(v as i32),
            None => None,
        }
    }
}

/// The port number that `s` is the decimal form of.
pub fn read_port(s: &str) -> (r: Option<u16>)
    ensures
        match r {
            Some(v) => parse_up_to(s@, 0xffff) == Some(v as nat),
            None => parse_up_to(s@, 0xffff) is None,
        },
{
    match read_up_to(&chars_of(s), 0xffff) {
        Some(v) => Some(v as u16),
        None => None,
    }
}

/// What a hexadecimal digit stands for.
pub fn hex_digit(c: char) -> (r: Option<u8>)
    ensures
        r == (if is_hex(c) {
            Some(hex_value(c) as u8)
        } else {
            None
        }),
{
    if '0' <= c && c <= '9' {
        Some(c as u8 - 48)
    } else if 'a' <= c && c <= 'f' {
        Some(c as u8 - 87)
    } else if 'A' <= c && c <= 'F' {
        Some(c as u8 - 55)
    } else {
        None
    }
}

/// The number that `cs` is the hexadecimal form of, where it fits in 16 bits.
pub fn read_hex16(cs: &[char]) -> (r: Option<u16>)
    ensures
        match r {
            Some(v) => parse_hex(cs@, 0xffff) == Some(v as nat),
            None => parse_hex(cs@, 0xffff) is None,
        },
{
    let body = without_plus(cs);
    let n: usize = body.len();
    if n == 0 {
        return None;
    }
    let mut v: u32 = 0;
    for i in 0..n
        invariant
            n == body@.len(),
            body@ == unsigned_part(cs@),
            v == hex_number(body@.take(i as int)),
            v <= 0xffff,
            forall|j: int| 0 <= j < i ==> is_hex(#[trigger] body@[j]),
    {
        let d: u32 = match hex_digit(body[i]) {
            Some(d) => d as u32,
            None => {
                assert(!all_hex(body@));
                return None;
            },
        };
        assert(body@.take(i + 1).drop_last() == body@.take(i as int));
        assert(hex_number(body@.take(i + 1)) == v * 16 + d);
        if v * 16 + d > 0xffff {
            proof {
                lemma_hex_number_prefix(body@, i + 1);
            }
            return None;
        }
        v = v * 16 + d;
    }
    assert(body@.take(n as int) == body@);
    Some(v as u16)
}

// ---------------------------------------------------------------------------------------------
// Reading what was written
// ---------------------------------------------------------------------------------------------
/// The decimal form of a number is a run of digits that stand for it.
pub proof fn lemma_decimal(n: nat)
    ensures
        decimal(n).len() > 0,
        all_digits(decimal(n)),
        number(decimal(n)) == n,
    decreases n,
{
    if n < 10 {
        assert(decimal(n).drop_last() == Seq::<char>::empty());
        assert(number(Seq::<char>::empty()) == 0);
    } else {
        lemma_decimal(n / 10);
        assert(decimal(n).drop_last() == decimal(n / 10));
    }
}

/// A number is read back from its decimal form.
pub proof fn law_decimal_read_back(n: nat, max: nat)
    requires
        n <= max,
    ensures
        parse_up_to(decimal(n), max) == Some(n),
{
    lemma_decimal(n);
    assert(is_digit(decimal(n)[0]));
}

/// A 32-bit number is read back from its decimal form, whatever its sign.
pub proof fn law_signed_decimal_read_back(n: i32)
    ensures
        parse_signed(signed_decimal(n as int)) == Some(n as int),
{
    if n < 0 {
        let m = (-(n as int)) as nat;
        lemma_decimal(m);
        assert(signed_decimal(n as int).drop_first() == decimal(m));
    } else {
        law_decimal_read_back(n as nat, 0x7fff_ffff);
        lemma_decimal(n as nat);
        assert(is_digit(decimal(n as nat)[0]));
    }
}

/// Digits count ten times as much with each place further to the left.
pub proof fn law_digits(s: Seq<char>, c: char)
    requires
        48 <= c as u32 <= 57,
    ensures
        number(Seq::empty()) == 0,
        number(s.push(c)) == 10 * number(s) + (c as u32 - 48),
        hex_number(Seq::empty()) == 0,
        hex_number(s.push(c)) == 16 * hex_number(s) + (c as u32 - 48),
{
    assert(s.push(c).drop_last() == s);
}

/// The letters `a` to `f`, small or not, count ten to fifteen in hexadecimal.
pub proof fn law_hex_letters(s: Seq<char>, c: char)
    ensures
        is_hex(c) <==> 48 <= c as u32 <= 57 || 97 <= c as u32 <= 102 || 65 <= c as u32 <= 70,
        97 <= c as u32 <= 102 ==> hex_number(s.push(c)) == 16 * hex_number(s) + 10 + (c as u32 - 97),
        65 <= c as u32 <= 70 ==> hex_number(s.push(c)) == 16 * hex_number(s) + 10 + (c as u32 - 65),
{
    assert(s.push(c).drop_last() == s);
}

/// A number below ten is written as one digit; one digit more at its end makes a number ten times
/// as large, and that digit. No number but zero begins with a zero.
pub proof fn law_decimal(n: nat, d: nat)
    requires
        d < 10,
    ensures
        decimal(d) == seq![(48 + d) as char],
        n > 0 ==> decimal(10 * n + d) == decimal(n).push((48 + d) as char),
        n > 0 ==> decimal(n)[0] as u32 != 48,
        forall|i: int| 0 <= i < decimal(n).len() ==> '0' <= #[trigger] decimal(n)[i] <= '9',
    decreases n,
{
    lemma_decimal(n);
    assert forall|i: int| 0 <= i < decimal(n).len() implies '0' <= #[trigger] decimal(n)[i] <= '9' by {
        assert(is_digit(decimal(n)[i]));
    }
    if n > 0 {
        assert((10 * n + d) / 10 == n && (10 * n + d) % 10 == d);
        if n >= 10 {
            law_decimal(n / 10, d);
            lemma_decimal(n / 10);
            assert(decimal(n)[0] == decimal(n / 10)[0]);
        }
    }
}

/// What is read as a number is digits, with or without a plus sign before them, that make up a
/// number within the limit; all such texts are read, and nothing else.
pub proof fn law_reading_numbers(d: Seq<char>, s: Seq<char>, max: nat)
    requires
        d.len() > 0,
        forall|i: int| 0 <= i < d.len() ==> '0' <= #[trigger] d[i] <= '9',
    ensures
        parse_up_to(d, max) == (if number(d) <= max {
            Some(number(d))
        } else {
            None
        }),
        parse_up_to(seq!['+'] + d, max) == parse_up_to(d, max),
        parse_up_to(s, max) is Some ==> s.len() > 0 && (s[0] == '+' || '0' <= s[0] <= '9') && (s[0]
            == '+' ==> s.len() > 1) && forall|i: int|
            1 <= i < s.len() ==> '0' <= #[trigger] s[i] <= '9',
{
    assert forall|i: int| 0 <= i < d.len() implies is_digit(#[trigger] d[i]) by {
        assert('0' <= d[i] <= '9');
    }
    assert(is_digit(d[0]));
    assert(unsigned_part(d) == d);
    assert((seq!['+'] + d).drop_first() == d);
    assert(unsigned_part(seq!['+'] + d) == d);
    if parse_up_to(s, max) is Some {
        let body = unsigned_part(s);
        assert(is_digit(body[0]));
        assert forall|i: int| 1 <= i < s.len() implies '0' <= #[trigger] s[i] <= '9' by {
            if s[0] == '+' {
                assert(s[i] == body[i - 1]);
                assert(is_digit(body[i - 1]));
            } else {
                assert(is_digit(body[i]));
            }
        }
    }
}

/// A number with a minus sign before it is read as the negative one, down to the lowest of 32 bits;
/// without one it is read up to the highest of 31.
pub proof fn law_reading_signed_numbers(d: Seq<char>)
    requires
        d.len() > 0,
        forall|i: int| 0 <= i < d.len() ==> '0' <= #[trigger] d[i] <= '9',
    ensures
        parse_signed(d) == (if number(d) <= 2_147_483_647 {
            Some(number(d) as int)
        } else {
            None
        }),
        parse_signed(seq!['-'] + d) == (if number(d) <= 2_147_483_648 {
            Some(-(number(d) as int))
        } else {
            None
        }),
{
    law_reading_numbers(d, d, 0x7fff_ffff);
    assert forall|i: int| 0 <= i < d.len() implies is_digit(#[trigger] d[i]) by {
        assert('0' <= d[i] <= '9');
    }
    assert(is_digit(d[0]));
    assert((seq!['-'] + d).drop_first() == d);
    assert(d.first() == d[0]);
}

/// What is read as a hexadecimal number is hexadecimal digits that make up a number within the
/// limit.
pub proof fn law_reading_hex(d: Seq<char>, max: nat)
    requires
        d.len() > 0,
        d[0] != '+',
    ensures
        parse_hex(d, max) == (if (forall|i: int| 0 <= i < d.len() ==> is_hex(#[trigger] d[i]))
            && hex_number(d) <= max {
            Some(hex_number(d))
        } else {
            None
        }),
{
    assert(unsigned_part(d) == d);
}

/// A number below a hundred takes two digits: the tens and the ones.
pub proof fn law_two_digits(n: nat)
    requires
        n < 100,
    ensures
        two_digits(n) == seq![(48 + n / 10) as char, (48 + n % 10) as char],
{
    if n >= 10 {
        assert(decimal(n) == decimal(n / 10).push(digit_char(n % 10)));
        assert(two_digits(n) == seq![digit_char(n / 10), digit_char(n % 10)]);
    } else {
        assert(two_digits(n) == seq!['0', digit_char(n)]);
    }
}

} // verus!
