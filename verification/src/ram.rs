//! How much memory a server gets.
use vstd::prelude::*;
use vstd::utf8::is_ascii_chars;

use crate::numbers::{
    all_digits, decimal, decimal_of, lemma_decimal, parse_up_to, read_up_to,
};
use crate::text::{
    cat2, chars_of, digit, is_digit, is_white, lower, same_ignoring_case, string_of, strip_suffix,
    trim, trimmed, upper, upper_char, without_suffix,
};
use crate::unicode::{to_uppercase, uppercase};

verus! {

/// `s` without its spaces.
pub open spec fn without_spaces(s: Seq<char>) -> Seq<char>
    decreases s.len(),
{
    if s.len() == 0 {
        Seq::empty()
    } else if s.last() == ' ' {
        without_spaces(s.drop_last())
    } else {
        without_spaces(s.drop_last()).push(s.last())
    }
}

/// What stands before the unit, where `s` ends in its long or its short form.
pub open spec fn before_unit(s: Seq<char>, long: Seq<char>, short: Seq<char>) -> Option<Seq<char>> {
    match strip_suffix(s, long) {
        Some(n) => Some(n),
        None => strip_suffix(s, short),
    }
}

/// Whether `n` is digits before a unit.
pub open spec fn is_amount(n: Option<Seq<char>>) -> bool {
    match n {
        Some(d) => d.len() > 0 && all_digits(d),
        None => false,
    }
}

/// The amount and the unit that `s`, in capitals and without spaces, says; where it says none,
/// two gigabytes.
pub open spec fn ram_said(s: Seq<char>) -> (Seq<char>, Seq<char>) {
    let gb = before_unit(s, "GB"@, "G"@);
    let mb = before_unit(s, "MB"@, "M"@);
    if is_amount(gb) {
        (gb->0, "GB"@)
    } else if is_amount(mb) {
        (mb->0, "MB"@)
    } else {
        ("2"@, "GB"@)
    }
}

/// The number that stands for `amount`: two where it is none, and at least one.
pub open spec fn ram_number(amount: Seq<char>) -> nat {
    match parse_up_to(trim(amount), 0xffff_ffff) {
        Some(n) => if n < 1 {
            1
        } else {
            n
        },
        None => 2,
    }
}

/// What is stored for an amount and a unit: at least 256 megabytes, or one to 32 gigabytes.
pub open spec fn stored(amount: Seq<char>, unit: Seq<char>) -> Seq<char> {
    let n = ram_number(amount);
    if lower(unit) == lower("MB"@) {
        decimal(
            if n < 256 {
                256
            } else {
                n
            },
        ) + "M"@
    } else {
        decimal(
            if n > 32 {
                32
            } else {
                n
            },
        ) + "G"@
    }
}

/// `cs` without its spaces.
fn drop_spaces(cs: &[char]) -> (r: Vec<char>)
    ensures
        r@ == without_spaces(cs@),
{
    let mut out: Vec<char> = Vec::new();
    let n: usize = cs.len();
    for i in 0..n
        invariant
            n == cs@.len(),
            out@ == without_spaces(cs@.take(i as int)),
    {
        assert(cs@.take(i + 1).drop_last() == cs@.take(i as int));
        if cs[i] != ' ' {
            out.push(cs[i]);
        }
    }
    assert(cs@.take(n as int) == cs@);
    out
}

/// Whether `cs` is digits.
fn digits_only(cs: &[char]) -> (r: bool)
    ensures
        r == (cs@.len() > 0 && all_digits(cs@)),
{
    let n: usize = cs.len();
    if n == 0 {
        return false;
    }
    for i in 0..n
        invariant
            n == cs@.len(),
            forall|j: int| 0 <= j < i ==> is_digit(#[trigger] cs@[j]),
    {
        if !digit(cs[i]) {
            return false;
        }
    }
    true
}

/// The digits before a unit.
fn amount_before<'a>(cs: &'a [char], long: &str, short: &str) -> (r: Option<&'a [char]>)
    ensures
        match r {
            Some(n) => is_amount(before_unit(cs@, long@, short@)) && before_unit(cs@, long@, short@)
                == Some(n@),
            None => !is_amount(before_unit(cs@, long@, short@)),
        },
{
    let n = match without_suffix(cs, &chars_of(long)) {
        Some(n) => n,
        None => match without_suffix(cs, &chars_of(short)) {
            Some(n) => n,
            None => {
                return None;
            },
        },
    };
    if digits_only(n) {
        Some(n)
    } else {
        None
    }
}

/// The amount and the unit that `s`, in capitals and without spaces, says.
pub fn ram_in(s: &str) -> (r: (String, String))
    ensures
        (r.0@, r.1@) == ram_said(s@),
{
    let cs = chars_of(s);
    match amount_before(&cs, "GB", "G") {
        Some(n) => {
            return (string_of(n), "GB".to_owned());
        },
        None => {},
    }
    match amount_before(&cs, "MB", "M") {
        Some(n) => (string_of(n), "MB".to_owned()),
        None => ("2".to_owned(), "GB".to_owned()),
    }
}

/// The amount and the unit that `raw` says. What is stored is read back.
pub fn parse_ram(raw: &str) -> (r: (String, String))
    ensures
        (r.0@, r.1@) == ram_said(uppercase(without_spaces(trim(raw@)))),
        forall|n: nat| raw@ == #[trigger] decimal(n) + "G"@ ==> r.0@ == decimal(n) && r.1@ == "GB"@,
        forall|n: nat| raw@ == #[trigger] decimal(n) + "M"@ ==> r.0@ == decimal(n) && r.1@ == "MB"@,
{
    let cs = chars_of(raw);
    let plain = string_of(&drop_spaces(trimmed(&cs)));
    let s = to_uppercase(plain.as_str());
    proof {
        assert forall|n: nat| raw@ == #[trigger] decimal(n) + "G"@ implies ram_said(s@) == (
            decimal(n),
            "GB"@,
        ) by {
            law_stored_form_is_read_back(n);
        }
        assert forall|n: nat| raw@ == #[trigger] decimal(n) + "M"@ implies ram_said(s@) == (
            decimal(n),
            "MB"@,
        ) by {
            law_stored_form_is_read_back(n);
        }
    }
    ram_in(s.as_str())
}

/// What is stored for an amount and a unit.
pub fn ram_stored(amount: &str, unit: &str) -> (r: String)
    ensures
        r@ == stored(amount@, unit@),
{
    let cs = chars_of(amount);
    let n: u64 = match read_up_to(trimmed(&cs), 0xffff_ffff) {
        Some(n) => if n < 1 {
            1
        } else {
            n
        },
        None => 2,
    };
    if same_ignoring_case(unit, "MB") {
        let m: u64 = if n < 256 {
            256
        } else {
            n
        };
        cat2(decimal_of(m).as_str(), "M")
    } else {
        let m: u64 = if n > 32 {
            32
        } else {
            n
        };
        cat2(decimal_of(m).as_str(), "G")
    }
}

/// The option that tells Java how much memory it may take.
pub fn ram_xmx(amount: &str, unit: &str) -> (r: String)
    ensures
        r@ == "-Xmx"@ + stored(amount@, unit@),
{
    cat2("-Xmx", ram_stored(amount, unit).as_str())
}

// ---------------------------------------------------------------------------------------------
// Laws
// ---------------------------------------------------------------------------------------------
/// Text without spaces stays as it is.
proof fn lemma_no_spaces(s: Seq<char>)
    requires
        !s.contains(' '),
    ensures
        without_spaces(s) == s,
    decreases s.len(),
{
    if s.len() > 0 {
        assert(s.contains(s.last()));
        assert forall|i: int| 0 <= i < s.drop_last().len() implies s.drop_last()[i] != ' ' by {
            assert(s.contains(s[i]));
        }
        lemma_no_spaces(s.drop_last());
        assert(s.drop_last().push(s.last()) == s);
    } else {
        assert(s == Seq::<char>::empty());
    }
}

/// Digits and a unit are their own plain form in capitals, and say just that.
pub proof fn law_stored_form_is_read_back(n: nat)
    ensures
        is_ascii_chars(without_spaces(trim(decimal(n) + "G"@))),
        is_ascii_chars(without_spaces(trim(decimal(n) + "M"@))),
        ram_said(upper(without_spaces(trim(decimal(n) + "G"@)))) == (decimal(n), "GB"@),
        ram_said(upper(without_spaces(trim(decimal(n) + "M"@)))) == (decimal(n), "MB"@),
{
    reveal_strlit("G");
    reveal_strlit("M");
    reveal_strlit("GB");
    reveal_strlit("MB");
    lemma_decimal(n);
    let d = decimal(n);
    assert(is_digit(d[0]));
    let g = d + "G"@;
    let m = d + "M"@;
    assert forall|i: int| 0 <= i < g.len() implies 48 <= #[trigger] g[i] as u32 <= 90 && upper_char(g[i]) == g[i] by {
        if i < d.len() {
            assert(is_digit(d[i]));
        }
    }
    assert forall|i: int| 0 <= i < m.len() implies 48 <= #[trigger] m[i] as u32 <= 90 && upper_char(m[i]) == m[i] by {
        if i < d.len() {
            assert(is_digit(d[i]));
        }
    }
    assert(!is_white(g.first()) && !is_white(g.last()));
    assert(!is_white(m.first()) && !is_white(m.last()));
    assert(trim(g) == g);
    assert(trim(m) == m);
    lemma_no_spaces(g);
    lemma_no_spaces(m);
    assert(upper(g) == g);
    assert(upper(m) == m);
    assert(g.last() == 'G');
    assert(m.last() == 'M');
    assert(g.skip(g.len() - 2).last() == 'G');
    assert(m.skip(m.len() - 2).last() == 'M');
    assert("GB"@.last() == 'B');
    assert("MB"@.last() == 'B');
    assert(strip_suffix(g, "GB"@) is None);
    assert(g.skip(g.len() - 1) == "G"@);
    assert(g.take(g.len() - 1) == d);
    assert(strip_suffix(g, "G"@) == Some(d));
    assert(strip_suffix(m, "GB"@) is None);
    assert(m.skip(m.len() - 1)[0] == 'M');
    assert("G"@[0] == 'G');
    assert(strip_suffix(m, "G"@) is None);
    assert(strip_suffix(m, "MB"@) is None);
    assert(m.skip(m.len() - 1) == "M"@);
    assert(m.take(m.len() - 1) == d);
    assert(strip_suffix(m, "M"@) == Some(d));
}

/// Storing an amount that was read from what is stored changes nothing.
pub proof fn law_storing_again_changes_nothing(amount: Seq<char>, unit: Seq<char>)
    ensures
        ({
            let said = ram_said(upper(without_spaces(trim(stored(amount, unit)))));
            stored(said.0, said.1) == stored(amount, unit)
        }),
{
    reveal_strlit("GB");
    reveal_strlit("MB");
    let n = ram_number(amount);
    let k: nat = if lower(unit) == lower("MB"@) {
        if n < 256 {
            256
        } else {
            n
        }
    } else if n > 32 {
        32
    } else {
        n
    };
    law_stored_form_is_read_back(k);
    lemma_decimal(k);
    assert(is_digit(decimal(k)[0]));
    assert(is_digit(decimal(k)[decimal(k).len() - 1]));
    assert(trim(decimal(k)) == decimal(k));
    crate::numbers::law_decimal_read_back(k, 0xffff_ffff);
    assert(lower("GB"@)[0] != lower("MB"@)[0]);
}

/// What is typed in as an amount, with or without white space around it, is stored as it is: from
/// 256 megabytes up, and from one to 32 gigabytes. Less than 256 megabytes is stored as 256, no
/// gigabytes as one, and more than 32 gigabytes as 32.
pub proof fn law_what_is_stored(a: Seq<char>, n: nat, b: Seq<char>, unit: Seq<char>)
    requires
        n <= 0xffff_ffff,
        forall|i: int| 0 <= i < a.len() ==> is_white(#[trigger] a[i]),
        forall|i: int| 0 <= i < b.len() ==> is_white(#[trigger] b[i]),
    ensures
        lower(unit) == seq!['m', 'b'] && n >= 256 ==> stored(a + decimal(n) + b, unit) == decimal(n)
            + seq!['M'],
        lower(unit) == seq!['m', 'b'] && n < 256 ==> stored(a + decimal(n) + b, unit) == seq![
            '2',
            '5',
            '6',
            'M',
        ],
        lower(unit) != seq!['m', 'b'] && 1 <= n <= 32 ==> stored(a + decimal(n) + b, unit) == decimal(
            n,
        ) + seq!['G'],
        lower(unit) != seq!['m', 'b'] && n > 32 ==> stored(a + decimal(n) + b, unit) == seq![
            '3',
            '2',
            'G',
        ],
        lower(unit) != seq!['m', 'b'] && n == 0 ==> stored(a + decimal(n) + b, unit) == seq!['1', 'G'],
{
    reveal_strlit("MB");
    reveal_strlit("M");
    reveal_strlit("G");
    assert("M"@ =~= seq!['M']);
    assert("G"@ =~= seq!['G']);
    assert(lower("MB"@) =~= seq!['m', 'b']);
    lemma_decimal(n);
    let d = decimal(n);
    assert(is_digit(d[0]) && is_digit(d[d.len() - 1]));
    crate::text::law_trim(a, d, b);
    crate::numbers::law_decimal_read_back(n, 0xffff_ffff);
    assert(ram_number(a + d + b) == (if n < 1 {
        1
    } else {
        n
    }));
    reveal_with_fuel(decimal, 4);
    assert(decimal(256) + seq!['M'] =~= seq!['2', '5', '6', 'M']);
    assert(decimal(32) + seq!['G'] =~= seq!['3', '2', 'G']);
    assert(decimal(1) + seq!['G'] =~= seq!['1', 'G']);
}

/// What is no amount counts as two: gigabytes, or as few megabytes as there can be.
pub proof fn law_no_amount(amount: Seq<char>, unit: Seq<char>)
    requires
        parse_up_to(trim(amount), 0xffff_ffff) is None,
    ensures
        lower(unit) == seq!['m', 'b'] ==> stored(amount, unit) == seq!['2', '5', '6', 'M'],
        lower(unit) != seq!['m', 'b'] ==> stored(amount, unit) == seq!['2', 'G'],
{
    reveal_strlit("MB");
    reveal_strlit("M");
    reveal_strlit("G");
    assert("M"@ =~= seq!['M']);
    assert("G"@ =~= seq!['G']);
    assert(lower("MB"@) =~= seq!['m', 'b']);
    reveal_with_fuel(decimal, 4);
    assert(decimal(256) + seq!['M'] =~= seq!['2', '5', '6', 'M']);
    assert(decimal(2) + seq!['G'] =~= seq!['2', 'G']);
}

/// Digits before a unit, in its short or its long form, are an amount in that unit; everything else
/// says two gigabytes. Spaces are left out wherever they stand.
#[verifier::rlimit(40)]
pub proof fn law_what_is_said(d: Seq<char>, s: Seq<char>)
    requires
        d.len() > 0,
        forall|i: int| 0 <= i < d.len() ==> '0' <= #[trigger] d[i] <= '9',
    ensures
        ram_said(d + seq!['G']) == (d, seq!['G', 'B']),
        ram_said(d + seq!['G', 'B']) == (d, seq!['G', 'B']),
        ram_said(d + seq!['M']) == (d, seq!['M', 'B']),
        ram_said(d + seq!['M', 'B']) == (d, seq!['M', 'B']),
        ram_said(s).1 == seq!['M', 'B'] ==> s == ram_said(s).0 + seq!['M'] || s == ram_said(s).0
            + seq!['M', 'B'],
        ram_said(s).1 == seq!['G', 'B'] && ram_said(s).0 != seq!['2'] ==> s == ram_said(s).0
            + seq!['G'] || s == ram_said(s).0 + seq!['G', 'B'],
        ram_said(s).1 == seq!['M', 'B'] || ram_said(s).1 == seq!['G', 'B'],
        without_spaces(s) == s.filter(|c: char| c != ' '),
{
    reveal_strlit("G");
    reveal_strlit("M");
    reveal_strlit("GB");
    reveal_strlit("MB");
    reveal_strlit("2");
    assert("G"@ =~= seq!['G'] && "M"@ =~= seq!['M'] && "2"@ =~= seq!['2']);
    assert("GB"@ =~= seq!['G', 'B'] && "MB"@ =~= seq!['M', 'B']);
    lemma_spaces_filter(s);
    assert forall|i: int| 0 <= i < d.len() implies is_digit(#[trigger] d[i]) by {
        assert('0' <= d[i] <= '9');
    }
    crate::text::law_ends("G"@, d);
    crate::text::law_ends("GB"@, d);
    crate::text::law_ends("M"@, d);
    crate::text::law_ends("MB"@, d);
    let g = d + "G"@;
    let gb = d + "GB"@;
    let m = d + "M"@;
    let mb = d + "MB"@;
    crate::text::law_ends("GB"@, g);
    crate::text::law_ends("GB"@, m);
    crate::text::law_ends("G"@, m);
    crate::text::law_ends("MB"@, m);
    crate::text::law_ends("GB"@, mb);
    crate::text::law_ends("G"@, mb);
    assert(g.last() == 'G' && m.last() == 'M' && mb.last() == 'B' && mb[mb.len() - 2] == 'M');
    assert("GB"@[1] == 'B' && "GB"@[0] == 'G' && "MB"@[1] == 'B' && "G"@[0] == 'G');
    assert(strip_suffix(g, "GB"@) is None) by {
        if crate::text::ends_with(g, "GB"@) {
            assert(g[g.len() - 2 + 1] == "GB"@[1]);
        }
    }
    assert(strip_suffix(m, "GB"@) is None && strip_suffix(m, "MB"@) is None && strip_suffix(m, "G"@) is None) by {
        if crate::text::ends_with(m, "GB"@) {
            assert(m[m.len() - 2 + 1] == "GB"@[1]);
        }
        if crate::text::ends_with(m, "MB"@) {
            assert(m[m.len() - 2 + 1] == "MB"@[1]);
        }
        if crate::text::ends_with(m, "G"@) {
            assert(m[m.len() - 1 + 0] == "G"@[0]);
        }
    }
    assert(strip_suffix(mb, "GB"@) is None && strip_suffix(mb, "G"@) is None) by {
        if crate::text::ends_with(mb, "GB"@) {
            assert(mb[mb.len() - 2 + 0] == "GB"@[0]);
        }
        if crate::text::ends_with(mb, "G"@) {
            assert(mb[mb.len() - 1 + 0] == "G"@[0]);
        }
    }
    assert(seq!['M', 'B'][0] != seq!['G', 'B'][0]);
    lemma_put_back(s, "GB"@);
    lemma_put_back(s, "G"@);
    lemma_put_back(s, "MB"@);
    lemma_put_back(s, "M"@);
}

/// What is left before an ending, with the ending, is the text.
proof fn lemma_put_back(s: Seq<char>, p: Seq<char>)
    ensures
        strip_suffix(s, p) is Some ==> s == strip_suffix(s, p)->0 + p,
{
    if strip_suffix(s, p) is Some {
        assert(s =~= s.take(s.len() - p.len()) + s.skip(s.len() - p.len()));
    }
}

proof fn lemma_spaces_filter(s: Seq<char>)
    ensures
        without_spaces(s) == s.filter(|c: char| c != ' '),
    decreases s.len(),
{
    reveal(Seq::filter);
    if s.len() > 0 {
        lemma_spaces_filter(s.drop_last());
    }
}

} // verus!
