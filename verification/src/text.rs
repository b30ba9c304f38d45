//! Text as sequences of characters: trimming, searching, splitting, comparing and joining.
use vstd::prelude::*;
use vstd::slice::slice_subrange;

verus! {

/// `String::push` appends the given character to the end of the string.
pub assume_specification[ String::push ](s: &mut String, c: char)
    ensures
        final(s)@ == old(s)@.push(c),
;

// ---------------------------------------------------------------------------------------------
// Characters
// ---------------------------------------------------------------------------------------------
/// The characters with the Unicode property `White_Space`.
pub open spec fn is_white(c: char) -> bool {
    ||| '\u{9}' <= c <= '\u{d}'
    ||| c == ' '
    ||| c == '\u{85}'
    ||| c == '\u{a0}'
    ||| c == '\u{1680}'
    ||| '\u{2000}' <= c <= '\u{200a}'
    ||| c == '\u{2028}'
    ||| c == '\u{2029}'
    ||| c == '\u{202f}'
    ||| c == '\u{205f}'
    ||| c == '\u{3000}'
}

/// The ASCII digits.
pub open spec fn is_digit(c: char) -> bool {
    '0' <= c <= '9'
}

/// The ASCII letters and digits.
pub open spec fn is_alphanumeric(c: char) -> bool {
    'a' <= c <= 'z' || 'A' <= c <= 'Z' || '0' <= c <= '9'
}

/// `c`, with an ASCII capital made small.
pub open spec fn lower_char(c: char) -> char {
    if 'A' <= c <= 'Z' {
        ((c as u32) + 32) as char
    } else {
        c
    }
}

/// `c`, with a small ASCII letter made a capital.
pub open spec fn upper_char(c: char) -> char {
    if 'a' <= c <= 'z' {
        ((c as u32) - 32) as char
    } else {
        c
    }
}

/// Whether `c` is white space.
pub fn white(c: char) -> (r: bool)
    ensures
        r == is_white(c),
{
    ('\u{9}' <= c && c <= '\u{d}') || c == ' ' || c == '\u{85}' || c == '\u{a0}' || c == '\u{1680}'
        || ('\u{2000}' <= c && c <= '\u{200a}') || c == '\u{2028}' || c == '\u{2029}' || c
        == '\u{202f}' || c == '\u{205f}' || c == '\u{3000}'
}

/// Whether `c` is an ASCII digit.
pub fn digit(c: char) -> (r: bool)
    ensures
        r == is_digit(c),
{
    '0' <= c && c <= '9'
}

/// Whether `c` is an ASCII letter or digit.
pub fn alphanumeric(c: char) -> (r: bool)
    ensures
        r == is_alphanumeric(c),
{
    ('a' <= c && c <= 'z') || ('A' <= c && c <= 'Z') || ('0' <= c && c <= '9')
}

/// `c`, with an ASCII capital made small.
pub fn to_lower_char(c: char) -> (r: char)
    ensures
        r == lower_char(c),
{
    if 'A' <= c && c <= 'Z' {
        let b: u8 = c as u8;
        (b + 32) as char
    } else {
        c
    }
}

// ---------------------------------------------------------------------------------------------
// Strings and their characters
// ---------------------------------------------------------------------------------------------
/// The characters of each of `parts`.
pub open spec fn texts(parts: Seq<String>) -> Seq<Seq<char>> {
    Seq::new(parts.len(), |i: int| parts[i]@)
}

/// The characters of each of `parts`.
pub open spec fn pieces(parts: Seq<Vec<char>>) -> Seq<Seq<char>> {
    Seq::new(parts.len(), |i: int| parts[i]@)
}

/// The characters of `s`, in order.
pub fn chars_of(s: &str) -> (r: Vec<char>)
    ensures
        r@ == s@,
{
    let mut out: Vec<char> = Vec::new();
    for c in it: s.chars()
        invariant
            it.seq() == s@,
            out@ == it.seq().take(it.index()),
    {
        out.push(c);
    }
    out
}

/// The string whose characters are `cs`.
pub fn string_of(cs: &[char]) -> (r: String)
    ensures
        r@ == cs@,
{
    let mut out = String::new();
    push_all(&mut out, cs);
    out
}

/// Appends `cs` to `out`.
pub fn push_all(out: &mut String, cs: &[char])
    ensures
        final(out)@ == old(out)@ + cs@,
{
    let n: usize = cs.len();
    for i in 0..n
        invariant
            n == cs@.len(),
            out@ == old(out)@ + cs@.take(i as int),
    {
        out.push(cs[i]);
        assert(cs@.take(i + 1) == cs@.take(i as int).push(cs@[i as int]));
    }
    assert(cs@.take(n as int) == cs@);
}

/// A copy of `cs`.
pub fn copy_chars(cs: &[char]) -> (r: Vec<char>)
    ensures
        r@ == cs@,
{
    let mut out: Vec<char> = Vec::new();
    let n: usize = cs.len();
    for i in 0..n
        invariant
            n == cs@.len(),
            out@ == cs@.take(i as int),
    {
        out.push(cs[i]);
    }
    out
}

// ---------------------------------------------------------------------------------------------
// Equality
// ---------------------------------------------------------------------------------------------
/// Whether two runs of characters are the same.
pub fn same_chars(a: &[char], b: &[char]) -> (r: bool)
    ensures
        r == (a@ == b@),
{
    let n: usize = a.len();
    if n != b.len() {
        return false;
    }
    for i in 0..n
        invariant
            n == a@.len(),
            n == b@.len(),
            forall|j: int| 0 <= j < i ==> a@[j] == b@[j],
    {
        if a[i] != b[i] {
            return false;
        }
    }
    assert(a@ == b@);
    true
}

/// Whether two strings hold the same characters.
pub fn same(a: &str, b: &str) -> (r: bool)
    ensures
        r == (a@ == b@),
{
    let x = chars_of(a);
    let y = chars_of(b);
    same_chars(&x, &y)
}

/// Whether `s` holds no character.
pub fn is_empty(s: &str) -> (r: bool)
    ensures
        r == (s@.len() == 0),
{
    s.is_empty()
}

/// `s`, with its ASCII capitals made small.
pub open spec fn lower(s: Seq<char>) -> Seq<char> {
    Seq::new(s.len(), |i: int| lower_char(s[i]))
}

/// `s`, with its small ASCII letters made capitals.
pub open spec fn upper(s: Seq<char>) -> Seq<char> {
    Seq::new(s.len(), |i: int| upper_char(s[i]))
}

/// The characters of `cs` with ASCII capitals made small.
pub fn to_lower(cs: &[char]) -> (r: Vec<char>)
    ensures
        r@ == lower(cs@),
{
    let mut out: Vec<char> = Vec::new();
    let n: usize = cs.len();
    for i in 0..n
        invariant
            n == cs@.len(),
            out@ == lower(cs@).take(i as int),
    {
        out.push(to_lower_char(cs[i]));
    }
    out
}

/// Whether two strings are the same once ASCII capitals are made small.
pub fn same_ignoring_case(a: &str, b: &str) -> (r: bool)
    ensures
        r == (lower(a@) == lower(b@)),
{
    let x = to_lower(&chars_of(a));
    let y = to_lower(&chars_of(b));
    same_chars(&x, &y)
}

// ---------------------------------------------------------------------------------------------
// Trimming
// ---------------------------------------------------------------------------------------------
/// `s` without its leading white space.
pub open spec fn trim_start(s: Seq<char>) -> Seq<char>
    decreases s.len(),
{
    if s.len() > 0 && is_white(s.first()) {
        trim_start(s.drop_first())
    } else {
        s
    }
}

/// `s` without its trailing white space.
pub open spec fn trim_end(s: Seq<char>) -> Seq<char>
    decreases s.len(),
{
    if s.len() > 0 && is_white(s.last()) {
        trim_end(s.drop_last())
    } else {
        s
    }
}

/// `s` without the white space at either end.
pub open spec fn trim(s: Seq<char>) -> Seq<char> {
    trim_end(trim_start(s))
}

/// The part of `cs` that is left once the white space at either end is taken off.
pub fn trimmed(cs: &[char]) -> (r: &[char])
    ensures
        r@ == trim(cs@),
{
    let n: usize = cs.len();
    let mut a: usize = 0;
    assert(cs@.skip(0) == cs@);
    while a < n && white(cs[a])
        invariant
            a <= n,
            n == cs@.len(),
            trim_start(cs@) == trim_start(cs@.skip(a as int)),
        decreases n - a,
    {
        assert(cs@.skip(a as int).drop_first() == cs@.skip(a + 1));
        a = a + 1;
    }
    assert(trim_start(cs@) == cs@.skip(a as int));
    let mut b: usize = n;
    assert(cs@.subrange(a as int, b as int) == cs@.skip(a as int));
    while a < b && white(cs[b - 1])
        invariant
            a <= b <= n,
            n == cs@.len(),
            trim_end(cs@.skip(a as int)) == trim_end(cs@.subrange(a as int, b as int)),
        decreases b,
    {
        assert(cs@.subrange(a as int, b as int).drop_last() == cs@.subrange(a as int, b - 1));
        b = b - 1;
    }
    slice_subrange(cs, a, b)
}

/// `s` without the white space at either end, as a string.
pub fn trim_text(s: &str) -> (r: String)
    ensures
        r@ == trim(s@),
{
    let cs = chars_of(s);
    string_of(trimmed(&cs))
}

/// `s` without the characters of `set` at its start.
pub open spec fn strip_start(s: Seq<char>, set: Seq<char>) -> Seq<char>
    decreases s.len(),
{
    if s.len() > 0 && set.contains(s.first()) {
        strip_start(s.drop_first(), set)
    } else {
        s
    }
}

/// `s` without the characters of `set` at its end.
pub open spec fn strip_end(s: Seq<char>, set: Seq<char>) -> Seq<char>
    decreases s.len(),
{
    if s.len() > 0 && set.contains(s.last()) {
        strip_end(s.drop_last(), set)
    } else {
        s
    }
}

/// Whether `c` is one of `set`.
pub fn is_one_of(c: char, set: &[char]) -> (r: bool)
    ensures
        r == set@.contains(c),
{
    let n: usize = set.len();
    for i in 0..n
        invariant
            n == set@.len(),
            forall|j: int| 0 <= j < i ==> set@[j] != c,
    {
        if set[i] == c {
            return true;
        }
    }
    false
}

/// The part of `cs` after the characters of `set` at its start.
pub fn stripped_start<'a>(cs: &'a [char], set: &[char]) -> (r: &'a [char])
    ensures
        r@ == strip_start(cs@, set@),
{
    let n: usize = cs.len();
    let mut a: usize = 0;
    assert(cs@.skip(0) == cs@);
    while a < n && is_one_of(cs[a], set)
        invariant
            a <= n,
            n == cs@.len(),
            strip_start(cs@, set@) == strip_start(cs@.skip(a as int), set@),
        decreases n - a,
    {
        assert(cs@.skip(a as int).drop_first() == cs@.skip(a + 1));
        a = a + 1;
    }
    assert(cs@.subrange(a as int, n as int) == cs@.skip(a as int));
    slice_subrange(cs, a, n)
}

/// The part of `cs` before the characters of `set` at its end.
pub fn stripped_end<'a>(cs: &'a [char], set: &[char]) -> (r: &'a [char])
    ensures
        r@ == strip_end(cs@, set@),
{
    let mut b: usize = cs.len();
    assert(cs@.subrange(0, b as int) == cs@);
    while 0 < b && is_one_of(cs[b - 1], set)
        invariant
            b <= cs@.len(),
            strip_end(cs@, set@) == strip_end(cs@.subrange(0, b as int), set@),
        decreases b,
    {
        assert(cs@.subrange(0, b as int).drop_last() == cs@.subrange(0, b - 1));
        b = b - 1;
    }
    slice_subrange(cs, 0, b)
}

// ---------------------------------------------------------------------------------------------
// Searching
// ---------------------------------------------------------------------------------------------
/// Whether `p` stands in `s` at position `i`.
pub open spec fn occurs_at(s: Seq<char>, p: Seq<char>, i: int) -> bool {
    0 <= i && i + p.len() <= s.len() && s.subrange(i, i + p.len()) == p
}

/// The first position from `i` on at which `p` stands in `s`.
pub open spec fn find_from(s: Seq<char>, p: Seq<char>, i: int) -> Option<int>
    decreases s.len() + 1 - i,
{
    if i < 0 || i + p.len() > s.len() {
        None
    } else if occurs_at(s, p, i) {
        Some(i)
    } else {
        find_from(s, p, i + 1)
    }
}

/// The first position at which `p` stands in `s`.
pub open spec fn find(s: Seq<char>, p: Seq<char>) -> Option<int> {
    find_from(s, p, 0)
}

/// Whether `p` stands anywhere in `s`.
pub open spec fn contains(s: Seq<char>, p: Seq<char>) -> bool {
    exists|i: int| occurs_at(s, p, i)
}

/// Whether `s` begins with `p`.
pub open spec fn starts_with(s: Seq<char>, p: Seq<char>) -> bool {
    p.len() <= s.len() && s.take(p.len() as int) == p
}

/// Whether `s` ends with `p`.
pub open spec fn ends_with(s: Seq<char>, p: Seq<char>) -> bool {
    p.len() <= s.len() && s.skip(s.len() - p.len()) == p
}

/// What [`find_from`] returns is the first place at or after `i` where `p` stands in `s`.
pub proof fn lemma_find_from(s: Seq<char>, p: Seq<char>, i: int)
    requires
        0 <= i,
    ensures
        match find_from(s, p, i) {
            Some(k) => i <= k && occurs_at(s, p, k) && forall|j: int|
                i <= j < k ==> !occurs_at(s, p, j),
            None => forall|j: int| i <= j ==> !occurs_at(s, p, j),
        },
    decreases s.len() + 1 - i,
{
    if i + p.len() <= s.len() && !occurs_at(s, p, i) {
        lemma_find_from(s, p, i + 1);
    }
}

/// A string holds `p` exactly if [`find`] finds it.
pub proof fn lemma_find_contains(s: Seq<char>, p: Seq<char>)
    ensures
        contains(s, p) == (find(s, p) is Some),
{
    lemma_find_from(s, p, 0);
}

/// Whether `p` stands in `cs` at position `i`.
pub fn stands_at(cs: &[char], p: &[char], i: usize) -> (r: bool)
    ensures
        r == occurs_at(cs@, p@, i as int),
{
    let n: usize = cs.len();
    let m: usize = p.len();
    if i > n || m > n - i {
        return false;
    }
    same_chars(slice_subrange(cs, i, i + m), p)
}

/// The first position at which `p` stands in `cs`.
pub fn position(cs: &[char], p: &[char]) -> (r: Option<usize>)
    ensures
        match r {
            Some(i) => find(cs@, p@) == Some(i as int),
            None => find(cs@, p@) is None,
        },
{
    let n: usize = cs.len();
    let m: usize = p.len();
    if m > n {
        return None;
    }
    let mut i: usize = 0;
    while i <= n - m
        invariant
            i <= n - m + 1,
            n == cs@.len(),
            m == p@.len(),
            m <= n,
            find(cs@, p@) == find_from(cs@, p@, i as int),
        decreases n - m + 1 - i,
    {
        if stands_at(cs, p, i) {
            return Some(i);
        }
        if i == n - m {
            assert(find_from(cs@, p@, i + 1) is None);
            return None;
        }
        i = i + 1;
    }
    None
}

/// Whether `p` stands anywhere in `s`.
pub fn has(s: &str, p: &str) -> (r: bool)
    ensures
        r == contains(s@, p@),
{
    let x = chars_of(s);
    let y = chars_of(p);
    proof {
        lemma_find_contains(s@, p@);
    }
    position(&x, &y).is_some()
}

/// Whether the character `c` stands anywhere in `cs`.
pub fn has_char(cs: &[char], c: char) -> (r: bool)
    ensures
        r == cs@.contains(c),
{
    is_one_of(c, cs)
}

/// Whether `cs` begins with `p`.
pub fn begins(cs: &[char], p: &[char]) -> (r: bool)
    ensures
        r == starts_with(cs@, p@),
{
    proof {
        if p@.len() <= cs@.len() {
            assert(cs@.subrange(0, p@.len() as int) == cs@.take(p@.len() as int));
        }
    }
    stands_at(cs, p, 0)
}

/// Whether `cs` ends with `p`.
pub fn ends(cs: &[char], p: &[char]) -> (r: bool)
    ensures
        r == ends_with(cs@, p@),
{
    let n: usize = cs.len();
    let m: usize = p.len();
    if m > n {
        return false;
    }
    assert(cs@.subrange(n - m, n as int) == cs@.skip(n - m));
    stands_at(cs, p, n - m)
}

/// Whether `s` begins with `p`.
pub fn begins_with(s: &str, p: &str) -> (r: bool)
    ensures
        r == starts_with(s@, p@),
{
    begins(&chars_of(s), &chars_of(p))
}

/// Whether `s` ends with `p`.
pub fn finishes_with(s: &str, p: &str) -> (r: bool)
    ensures
        r == ends_with(s@, p@),
{
    ends(&chars_of(s), &chars_of(p))
}

/// The first position from `i` on at which `c` stands in `s`.
pub open spec fn index_from(s: Seq<char>, c: char, i: int) -> Option<int>
    decreases s.len() - i,
{
    if i < 0 || i >= s.len() {
        None
    } else if s[i] == c {
        Some(i)
    } else {
        index_from(s, c, i + 1)
    }
}

/// The first position at which `c` stands in `s`.
pub open spec fn index(s: Seq<char>, c: char) -> Option<int> {
    index_from(s, c, 0)
}

/// What [`index_from`] returns is the first place at or after `i` where `c` stands in `s`.
pub proof fn lemma_index_from(s: Seq<char>, c: char, i: int)
    requires
        0 <= i,
    ensures
        match index_from(s, c, i) {
            Some(k) => i <= k < s.len() && s[k] == c && forall|j: int| i <= j < k ==> s[j] != c,
            None => forall|j: int| i <= j < s.len() ==> s[j] != c,
        },
    decreases s.len() - i,
{
    if i < s.len() && s[i] != c {
        lemma_index_from(s, c, i + 1);
    }
}

/// The first position at which `c` stands in `cs`.
pub fn index_of(cs: &[char], c: char) -> (r: Option<usize>)
    ensures
        match r {
            Some(i) => i < cs@.len() && index(cs@, c) == Some(i as int),
            None => index(cs@, c) is None,
        },
{
    let n: usize = cs.len();
    let mut i: usize = 0;
    while i < n
        invariant
            i <= n,
            n == cs@.len(),
            index(cs@, c) == index_from(cs@, c, i as int),
        decreases n - i,
    {
        if cs[i] == c {
            return Some(i);
        }
        i = i + 1;
    }
    None
}

/// The last position before `i` at which `c` stands in `s`.
pub open spec fn last_index_before(s: Seq<char>, c: char, i: int) -> Option<int>
    decreases i,
{
    if i <= 0 || i > s.len() {
        None
    } else if s[i - 1] == c {
        Some(i - 1)
    } else {
        last_index_before(s, c, i - 1)
    }
}

/// The last position at which `c` stands in `s`.
pub open spec fn last_index(s: Seq<char>, c: char) -> Option<int> {
    last_index_before(s, c, s.len() as int)
}

/// The last position at which `c` stands in `cs`.
pub fn last_index_of(cs: &[char], c: char) -> (r: Option<usize>)
    ensures
        match r {
            Some(i) => i < cs@.len() && last_index(cs@, c) == Some(i as int),
            None => last_index(cs@, c) is None,
        },
{
    let mut i: usize = cs.len();
    while i > 0
        invariant
            i <= cs@.len(),
            last_index(cs@, c) == last_index_before(cs@, c, i as int),
        decreases i,
    {
        if cs[i - 1] == c {
            return Some(i - 1);
        }
        i = i - 1;
    }
    None
}

/// What stands before and after the first `c` in `s`.
pub open spec fn split_once(s: Seq<char>, c: char) -> Option<(Seq<char>, Seq<char>)> {
    match index(s, c) {
        Some(i) => Some((s.take(i), s.skip(i + 1))),
        None => None,
    }
}

/// What stands after the last `c` in `s`.
pub open spec fn after_last(s: Seq<char>, c: char) -> Option<Seq<char>> {
    match last_index(s, c) {
        Some(i) => Some(s.skip(i + 1)),
        None => None,
    }
}

/// What stands before and after the first `c` in `cs`.
pub fn divided<'a>(cs: &'a [char], c: char) -> (r: Option<(&'a [char], &'a [char])>)
    ensures
        match r {
            Some((a, b)) => split_once(cs@, c) == Some((a@, b@)),
            None => split_once(cs@, c) is None,
        },
{
    let n: usize = cs.len();
    match index_of(cs, c) {
        Some(i) => {
            assert(cs@.subrange(0, i as int) == cs@.take(i as int));
            assert(cs@.subrange(i + 1, n as int) == cs@.skip(i + 1));
            Some((slice_subrange(cs, 0, i), slice_subrange(cs, i + 1, n)))
        },
        None => None,
    }
}

/// What stands after the last `c` in `cs`.
pub fn tail_after<'a>(cs: &'a [char], c: char) -> (r: Option<&'a [char]>)
    ensures
        match r {
            Some(a) => after_last(cs@, c) == Some(a@),
            None => after_last(cs@, c) is None,
        },
{
    let n: usize = cs.len();
    match last_index_of(cs, c) {
        Some(i) => {
            assert(cs@.subrange(i + 1, n as int) == cs@.skip(i + 1));
            Some(slice_subrange(cs, i + 1, n))
        },
        None => None,
    }
}

/// What is left of `s` after `p`, where `s` begins with `p`.
pub open spec fn strip_prefix(s: Seq<char>, p: Seq<char>) -> Option<Seq<char>> {
    if starts_with(s, p) {
        Some(s.skip(p.len() as int))
    } else {
        None
    }
}

/// What is left of `s` before `p`, where `s` ends with `p`.
pub open spec fn strip_suffix(s: Seq<char>, p: Seq<char>) -> Option<Seq<char>> {
    if ends_with(s, p) {
        Some(s.take(s.len() - p.len()))
    } else {
        None
    }
}

/// What is left of `cs` after `p`, where `cs` begins with `p`.
pub fn without_prefix<'a>(cs: &'a [char], p: &[char]) -> (r: Option<&'a [char]>)
    ensures
        match r {
            Some(a) => strip_prefix(cs@, p@) == Some(a@),
            None => strip_prefix(cs@, p@) is None,
        },
{
    if begins(cs, p) {
        assert(cs@.subrange(p@.len() as int, cs@.len() as int) == cs@.skip(p@.len() as int));
        Some(slice_subrange(cs, p.len(), cs.len()))
    } else {
        None
    }
}

/// What is left of `cs` before `p`, where `cs` ends with `p`.
pub fn without_suffix<'a>(cs: &'a [char], p: &[char]) -> (r: Option<&'a [char]>)
    ensures
        match r {
            Some(a) => strip_suffix(cs@, p@) == Some(a@),
            None => strip_suffix(cs@, p@) is None,
        },
{
    if ends(cs, p) {
        assert(cs@.subrange(0, cs@.len() - p@.len()) == cs@.take(cs@.len() - p@.len()));
        Some(slice_subrange(cs, 0, cs.len() - p.len()))
    } else {
        None
    }
}

// ---------------------------------------------------------------------------------------------
// Splitting and joining
// ---------------------------------------------------------------------------------------------
/// The pieces of `s` between the characters of `seps`; there is one more of them than there are
/// separators.
pub open spec fn split(s: Seq<char>, seps: Seq<char>) -> Seq<Seq<char>>
    decreases s.len(),
{
    if s.len() == 0 {
        seq![Seq::empty()]
    } else {
        let before = split(s.drop_last(), seps);
        if seps.contains(s.last()) {
            before.push(Seq::empty())
        } else {
            before.drop_last().push(before.last().push(s.last()))
        }
    }
}

/// There is always a piece.
pub proof fn lemma_split_nonempty(s: Seq<char>, seps: Seq<char>)
    ensures
        split(s, seps).len() > 0,
    decreases s.len(),
{
    if s.len() > 0 {
        lemma_split_nonempty(s.drop_last(), seps);
    }
}

/// The pieces of `cs` between the characters of `seps`.
pub fn split_on(cs: &[char], seps: &[char]) -> (r: Vec<Vec<char>>)
    ensures
        pieces(r@) == split(cs@, seps@),
        r@.len() > 0,
{
    let mut done: Vec<Vec<char>> = Vec::new();
    let mut cur: Vec<char> = Vec::new();
    let n: usize = cs.len();
    assert(cs@.take(0) == Seq::<char>::empty());
    for i in 0..n
        invariant
            n == cs@.len(),
            pieces(done@).push(cur@) == split(cs@.take(i as int), seps@),
    {
        let c = cs[i];
        assert(cs@.take(i + 1).drop_last() == cs@.take(i as int));
        let ghost before = pieces(done@).push(cur@);
        assert(before.drop_last() == pieces(done@));
        if is_one_of(c, seps) {
            let ghost d0 = done@;
            let ghost c0 = cur@;
            done.push(cur);
            cur = Vec::new();
            assert(pieces(done@) == pieces(d0).push(c0));
        } else {
            cur.push(c);
        }
    }
    assert(cs@.take(n as int) == cs@);
    let ghost d0 = done@;
    let ghost c0 = cur@;
    done.push(cur);
    assert(pieces(done@) == pieces(d0).push(c0));
    done
}

/// `s` without one carriage return at its end.
pub open spec fn chomp(s: Seq<char>) -> Seq<char> {
    if s.len() > 0 && s.last() == '\r' {
        s.drop_last()
    } else {
        s
    }
}

/// The lines of `s`. A line ends in a line feed, with or without a carriage return before it;
/// the last one may lack its end.
pub open spec fn lines(s: Seq<char>) -> Seq<Seq<char>> {
    let parts = split(s, seq!['\n']);
    let ended = Seq::new((parts.len() - 1) as nat, |i: int| chomp(parts[i]));
    if parts.last().len() == 0 {
        ended
    } else {
        ended.push(parts.last())
    }
}

/// The lines of `cs`.
pub fn lines_of(cs: &[char]) -> (r: Vec<Vec<char>>)
    ensures
        pieces(r@) == lines(cs@),
{
    let sep: Vec<char> = vec!['\n'];
    assert(sep@ == seq!['\n']);
    let parts = split_on(cs, &sep);
    let ghost all = pieces(parts@);
    let mut out: Vec<Vec<char>> = Vec::new();
    let n: usize = parts.len();
    let ghost ended = Seq::new((all.len() - 1) as nat, |i: int| chomp(all[i]));
    for i in 0..n - 1
        invariant
            n == parts@.len(),
            n > 0,
            all == pieces(parts@),
            ended == Seq::new((all.len() - 1) as nat, |i: int| chomp(all[i])),
            pieces(out@) == ended.take(i as int),
    {
        let p = &parts[i];
        let m: usize = p.len();
        let line = if m > 0 && p[m - 1] == '\r' {
            assert(p@.subrange(0, m - 1) == p@.drop_last());
            copy_chars(slice_subrange(p.as_slice(), 0, m - 1))
        } else {
            copy_chars(p)
        };
        let ghost o0 = out@;
        let ghost l0 = line@;
        out.push(line);
        assert(pieces(out@) == pieces(o0).push(l0));
        assert(ended.take(i + 1) == ended.take(i as int).push(ended[i as int]));
    }
    assert(ended.take(n - 1) == ended);
    if parts[n - 1].len() > 0 {
        let last = copy_chars(&parts[n - 1]);
        let ghost o0 = out@;
        let ghost l0 = last@;
        out.push(last);
        assert(pieces(out@) == pieces(o0).push(l0));
    }
    out
}

/// The finished words of `s`, and the word that its end may still be part of.
pub open spec fn words_so_far(s: Seq<char>) -> (Seq<Seq<char>>, Seq<char>)
    decreases s.len(),
{
    if s.len() == 0 {
        (Seq::empty(), Seq::empty())
    } else {
        let (done, cur) = words_so_far(s.drop_last());
        if !is_white(s.last()) {
            (done, cur.push(s.last()))
        } else if cur.len() > 0 {
            (done.push(cur), Seq::empty())
        } else {
            (done, Seq::empty())
        }
    }
}

/// The words of `s`: its longest runs without white space.
pub open spec fn words(s: Seq<char>) -> Seq<Seq<char>> {
    let (done, cur) = words_so_far(s);
    if cur.len() > 0 {
        done.push(cur)
    } else {
        done
    }
}

/// The words of `cs`.
pub fn words_of(cs: &[char]) -> (r: Vec<Vec<char>>)
    ensures
        pieces(r@) == words(cs@),
{
    let mut done: Vec<Vec<char>> = Vec::new();
    let mut cur: Vec<char> = Vec::new();
    let n: usize = cs.len();
    assert(cs@.take(0) == Seq::<char>::empty());
    assert(pieces(done@) == Seq::<Seq<char>>::empty());
    for i in 0..n
        invariant
            n == cs@.len(),
            pieces(done@) == words_so_far(cs@.take(i as int)).0,
            cur@ == words_so_far(cs@.take(i as int)).1,
    {
        assert(cs@.take(i + 1).drop_last() == cs@.take(i as int));
        if !white(cs[i]) {
            cur.push(cs[i]);
        } else if cur.len() > 0 {
            let ghost d0 = done@;
            let ghost c0 = cur@;
            done.push(cur);
            cur = Vec::new();
            assert(pieces(done@) == pieces(d0).push(c0));
        }
    }
    assert(cs@.take(n as int) == cs@);
    if cur.len() > 0 {
        let ghost d0 = done@;
        let ghost c0 = cur@;
        done.push(cur);
        assert(pieces(done@) == pieces(d0).push(c0));
    }
    done
}

/// `parts` with `sep` between them.
pub open spec fn join(parts: Seq<Seq<char>>, sep: Seq<char>) -> Seq<char>
    decreases parts.len(),
{
    if parts.len() == 0 {
        Seq::empty()
    } else if parts.len() == 1 {
        parts[0]
    } else {
        join(parts.drop_last(), sep) + sep + parts.last()
    }
}

/// `parts` with `sep` between them.
pub fn join_texts(parts: &Vec<String>, sep: &str) -> (r: String)
    ensures
        r@ == join(texts(parts@), sep@),
{
    let mut out = String::new();
    let n: usize = parts.len();
    let ghost all = texts(parts@);
    for i in 0..n
        invariant
            n == parts@.len(),
            all == texts(parts@),
            out@ == join(all.take(i as int), sep@),
    {
        assert(all.take(i + 1).drop_last() == all.take(i as int));
        if i > 0 {
            out.append(sep);
        }
        out.append(parts[i].as_str());
        assert(out@ == join(all.take(i + 1), sep@));
    }
    assert(all.take(n as int) == all);
    out
}

/// `a` with `b` after it.
pub fn cat2(a: &str, b: &str) -> (r: String)
    ensures
        r@ == a@ + b@,
{
    let mut out = a.to_owned();
    out.append(b);
    out
}

/// `a`, `b` and `c`, one after the other.
pub fn cat3(a: &str, b: &str, c: &str) -> (r: String)
    ensures
        r@ == a@ + b@ + c@,
{
    let mut out = cat2(a, b);
    out.append(c);
    out
}

/// `a`, `b`, `c` and `d`, one after the other.
pub fn cat4(a: &str, b: &str, c: &str, d: &str) -> (r: String)
    ensures
        r@ == a@ + b@ + c@ + d@,
{
    let mut out = cat3(a, b, c);
    out.append(d);
    out
}

/// `a`, `b`, `c`, `d` and `e`, one after the other.
pub fn cat5(a: &str, b: &str, c: &str, d: &str, e: &str) -> (r: String)
    ensures
        r@ == a@ + b@ + c@ + d@ + e@,
{
    let mut out = cat4(a, b, c, d);
    out.append(e);
    out
}

/// Text without a separator is its only piece.
pub proof fn lemma_split_whole(s: Seq<char>, seps: Seq<char>)
    requires
        forall|i: int| 0 <= i < s.len() ==> !seps.contains(#[trigger] s[i]),
    ensures
        split(s, seps) == seq![s],
    decreases s.len(),
{
    if s.len() > 0 {
        let init = s.drop_last();
        assert forall|i: int| 0 <= i < init.len() implies !seps.contains(#[trigger] init[i]) by {
            assert(init[i] == s[i]);
        }
        lemma_split_whole(init, seps);
        assert(!seps.contains(s[s.len() - 1]));
        assert(seq![init].drop_last() == Seq::<Seq<char>>::empty());
        assert(init.push(s.last()) == s);
        assert(split(s, seps) == seq![s]);
    } else {
        assert(s == Seq::<char>::empty());
    }
}

/// The pieces of two texts with a separator between them are the pieces of the one and the
/// pieces of the other.
pub proof fn lemma_split_append(a: Seq<char>, c: char, b: Seq<char>, seps: Seq<char>)
    requires
        seps.contains(c),
    ensures
        split(a.push(c) + b, seps) == split(a, seps) + split(b, seps),
    decreases b.len(),
{
    lemma_split_nonempty(a, seps);
    if b.len() == 0 {
        assert(a.push(c) + b == a.push(c));
        assert(a.push(c).drop_last() == a);
        assert(split(b, seps) == seq![Seq::<char>::empty()]);
        assert(split(a, seps).push(Seq::empty()) == split(a, seps) + seq![Seq::<char>::empty()]);
    } else {
        let whole = a.push(c) + b;
        let init = b.drop_last();
        lemma_split_append(a, c, init, seps);
        lemma_split_nonempty(init, seps);
        assert(whole.drop_last() == a.push(c) + init);
        assert(whole.last() == b.last());
        let x = split(a, seps);
        let y = split(init, seps);
        assert((x + y).last() == y.last());
        assert((x + y).drop_last() == x + y.drop_last());
        if seps.contains(b.last()) {
            assert((x + y).push(Seq::empty()) == x + y.push(Seq::empty()));
        } else {
            assert((x + y).drop_last().push((x + y).last().push(b.last())) == x
                + y.drop_last().push(y.last().push(b.last())));
        }
    }
}

/// A finished line after finished lines is one more line.
pub proof fn lemma_lines_push(before: Seq<char>, line: Seq<char>)
    requires
        before.len() == 0 || before.last() == '\n',
        !line.contains('\n'),
    ensures
        lines(before + line.push('\n')) == lines(before).push(chomp(line)),
{
    let seps = seq!['\n'];
    assert(seps[0] == '\n');
    assert forall|i: int| 0 <= i < line.len() implies !seps.contains(#[trigger] line[i]) by {
        assert(line.contains(line[i]));
    }
    lemma_split_whole(line, seps);
    let empty = Seq::<char>::empty();
    assert(split(empty, seps) == seq![empty]);
    lemma_split_append(line, '\n', empty, seps);
    assert(line.push('\n') + empty == line.push('\n'));
    assert(seq![line] + seq![empty] == seq![line, empty]);
    assert(split(line.push('\n'), seps) == seq![line, empty]);
    if before.len() == 0 {
        assert(before == empty);
        assert(before + line.push('\n') == line.push('\n'));
        assert(lines(before) == Seq::<Seq<char>>::empty());
        assert(lines(before + line.push('\n')) == seq![chomp(line)]);
    } else {
        let head = before.drop_last();
        assert(head.push('\n') == before);
        lemma_split_append(head, '\n', line.push('\n'), seps);
        lemma_split_append(head, '\n', empty, seps);
        assert(before + empty == before);
        let x = split(head, seps);
        assert(split(before, seps) == x + seq![empty]);
        assert(split(before + line.push('\n'), seps) == x + seq![line, empty]);
        assert(lines(before) == Seq::new(x.len(), |i: int| chomp(x[i])));
        assert(lines(before + line.push('\n')) == lines(before).push(chomp(line)));
    }
}

// ---------------------------------------------------------------------------------------------
// Order
// ---------------------------------------------------------------------------------------------
/// Whether `a` stands before `b` in the order of their characters' code points.
pub open spec fn precedes(a: Seq<char>, b: Seq<char>) -> bool
    decreases a.len(),
{
    if b.len() == 0 {
        false
    } else if a.len() == 0 {
        true
    } else if a.first() != b.first() {
        a.first() < b.first()
    } else {
        precedes(a.drop_first(), b.drop_first())
    }
}

/// Whether `a` stands before `b` in the order of their characters' code points.
pub fn before(a: &[char], b: &[char]) -> (r: bool)
    ensures
        r == precedes(a@, b@),
{
    let n: usize = a.len();
    let m: usize = b.len();
    let mut i: usize = 0;
    assert(a@.skip(0) == a@);
    assert(b@.skip(0) == b@);
    while i < n && i < m
        invariant
            i <= n,
            i <= m,
            n == a@.len(),
            m == b@.len(),
            precedes(a@, b@) == precedes(a@.skip(i as int), b@.skip(i as int)),
        decreases n - i,
    {
        assert(a@.skip(i as int).drop_first() == a@.skip(i + 1));
        assert(b@.skip(i as int).drop_first() == b@.skip(i + 1));
        if a[i] != b[i] {
            return a[i] < b[i];
        }
        i = i + 1;
    }
    i < m
}

/// Nothing stands before itself.
pub proof fn lemma_precedes_irreflexive(a: Seq<char>)
    ensures
        !precedes(a, a),
    decreases a.len(),
{
    if a.len() > 0 {
        lemma_precedes_irreflexive(a.drop_first());
    }
}

/// The order is transitive.
pub proof fn lemma_precedes_transitive(a: Seq<char>, b: Seq<char>, c: Seq<char>)
    requires
        precedes(a, b),
        precedes(b, c),
    ensures
        precedes(a, c),
    decreases a.len(),
{
    if a.len() > 0 && a.first() == b.first() && b.first() == c.first() {
        lemma_precedes_transitive(a.drop_first(), b.drop_first(), c.drop_first());
    }
}

/// Of two different texts one stands before the other.
pub proof fn lemma_precedes_total(a: Seq<char>, b: Seq<char>)
    ensures
        a == b || precedes(a, b) || precedes(b, a),
    decreases a.len(),
{
    if a.len() == 0 {
        if b.len() == 0 {
            assert(a == b);
        }
    } else if b.len() > 0 && a.first() == b.first() {
        lemma_precedes_total(a.drop_first(), b.drop_first());
        if a.drop_first() == b.drop_first() {
            assert(a == seq![a.first()] + a.drop_first());
            assert(b == seq![b.first()] + b.drop_first());
        }
    }
}

/// What two texts begin with in common does not count.
pub proof fn lemma_precedes_after(p: Seq<char>, a: Seq<char>, b: Seq<char>)
    ensures
        precedes(p + a, p + b) == precedes(a, b),
    decreases p.len(),
{
    if p.len() == 0 {
        assert(p + a == a);
        assert(p + b == b);
    } else {
        lemma_precedes_after(p.drop_first(), a, b);
        assert((p + a).drop_first() == p.drop_first() + a);
        assert((p + b).drop_first() == p.drop_first() + b);
        assert((p + a).first() == p.first());
        assert((p + b).first() == p.first());
    }
}

/// What follows two different texts of the same length does not count.
pub proof fn lemma_precedes_before(a: Seq<char>, b: Seq<char>, x: Seq<char>, y: Seq<char>)
    requires
        a.len() == b.len(),
    ensures
        precedes(a + x, b + y) == (precedes(a, b) || (a == b && precedes(x, y))),
    decreases a.len(),
{
    if a.len() == 0 {
        assert(a == b);
        assert(a + x == x);
        assert(b + y == y);
    } else {
        lemma_precedes_before(a.drop_first(), b.drop_first(), x, y);
        assert((a + x).drop_first() == a.drop_first() + x);
        assert((b + y).drop_first() == b.drop_first() + y);
        assert((a + x).first() == a.first());
        assert((b + y).first() == b.first());
        assert(a == seq![a.first()] + a.drop_first());
        assert(b == seq![b.first()] + b.drop_first());
        if a.first() == b.first() {
            assert((a == b) == (a.drop_first() == b.drop_first()));
        } else {
            assert(a != b);
        }
    }
}

// ---------------------------------------------------------------------------------------------
// Laws
// ---------------------------------------------------------------------------------------------
/// White space is what Unicode calls so: tabs and line ends, the space, and 17 more characters.
pub proof fn law_white(c: char)
    ensures
        is_white(c) <==> {
            let n = c as u32;
            ||| n == 9 || n == 10 || n == 11 || n == 12 || n == 13
            ||| n == 0x20 || n == 0x85 || n == 0xa0 || n == 0x1680
            ||| 0x2000 <= n <= 0x200a
            ||| n == 0x2028 || n == 0x2029 || n == 0x202f || n == 0x205f || n == 0x3000
        },
{
}

/// The letters and digits are those of ASCII.
pub proof fn law_letters_and_digits(c: char)
    ensures
        is_digit(c) <==> 48 <= c as u32 <= 57,
        is_alphanumeric(c) <==> 48 <= c as u32 <= 57 || 65 <= c as u32 <= 90 || 97 <= c as u32
            <= 122,
{
}

/// Making letters small changes the capitals of ASCII into the letters 32 places further on, and
/// nothing else; making them capitals does the reverse.
pub proof fn law_case(s: Seq<char>, i: int)
    requires
        0 <= i < s.len(),
    ensures
        lower(s).len() == s.len(),
        upper(s).len() == s.len(),
        65 <= s[i] as u32 <= 90 ==> lower(s)[i] as u32 == s[i] as u32 + 32,
        !(65 <= s[i] as u32 <= 90) ==> lower(s)[i] == s[i],
        97 <= s[i] as u32 <= 122 ==> upper(s)[i] as u32 == s[i] as u32 - 32,
        !(97 <= s[i] as u32 <= 122) ==> upper(s)[i] == s[i],
{
}

/// Two texts are the same but for the case of their letters exactly if they are as long, and at
/// each place hold the same character, or a letter and its capital.
pub proof fn law_same_but_for_case(a: Seq<char>, b: Seq<char>)
    ensures
        lower(a) == lower(b) <==> a.len() == b.len() && forall|i: int|
            0 <= i < a.len() ==> {
                let x = (#[trigger] a[i]) as int;
                let y = b[i] as int;
                ||| x == y
                ||| 65 <= x <= 90 && y == x + 32
                ||| 65 <= y <= 90 && x == y + 32
            },
{
    if lower(a) == lower(b) {
        assert(lower(a).len() == a.len() && lower(b).len() == b.len());
        assert forall|i: int| 0 <= i < a.len() implies {
            let x = (#[trigger] a[i]) as int;
            let y = b[i] as int;
            ||| x == y
            ||| 65 <= x <= 90 && y == x + 32
            ||| 65 <= y <= 90 && x == y + 32
        } by {
            assert(lower(a)[i] == lower(b)[i]);
        }
    }
    if a.len() == b.len() && forall|i: int|
        0 <= i < a.len() ==> {
            let x = (#[trigger] a[i]) as int;
            let y = b[i] as int;
            ||| x == y
            ||| 65 <= x <= 90 && y == x + 32
            ||| 65 <= y <= 90 && x == y + 32
        } {
        assert forall|i: int| 0 <= i < a.len() implies lower(a)[i] == lower(b)[i] by {
            let x = a[i];
        }
        assert(lower(a) =~= lower(b));
    }
}

/// Trimming takes white space off both ends of a text, all of it, and nothing else: what stands
/// between white space and white space, and neither begins nor ends in it, is what is left.
pub proof fn law_trim(a: Seq<char>, s: Seq<char>, b: Seq<char>)
    requires
        forall|i: int| 0 <= i < a.len() ==> is_white(#[trigger] a[i]),
        forall|i: int| 0 <= i < b.len() ==> is_white(#[trigger] b[i]),
        s.len() > 0 ==> !is_white(s.first()) && !is_white(s.last()),
    ensures
        trim(a + s + b) == s,
{
    lemma_trim_start_of(a, s + b);
    assert(a + s + b == a + (s + b));
    if s.len() > 0 {
        assert((s + b).first() == s.first());
        assert(trim_start(s + b) == s + b);
        lemma_trim_end_of(s, b);
    } else {
        assert(s + b == b);
        lemma_trim_start_of(b, s);
        assert(b + s == b);
        assert(trim_start(s) == s);
        assert(trim_end(s) == s);
    }
}

/// White space at the start is taken off.
proof fn lemma_trim_start_of(a: Seq<char>, s: Seq<char>)
    requires
        forall|i: int| 0 <= i < a.len() ==> is_white(#[trigger] a[i]),
    ensures
        trim_start(a + s) == trim_start(s),
    decreases a.len(),
{
    if a.len() > 0 {
        let rest = a.drop_first();
        assert forall|i: int| 0 <= i < rest.len() implies is_white(#[trigger] rest[i]) by {
            assert(rest[i] == a[i + 1]);
        }
        lemma_trim_start_of(rest, s);
        assert(is_white(a[0]));
        assert((a + s).first() == a[0]);
        assert((a + s).drop_first() == rest + s);
    } else {
        assert(a + s == s);
    }
}

/// White space at the end is taken off.
proof fn lemma_trim_end_of(s: Seq<char>, b: Seq<char>)
    requires
        forall|i: int| 0 <= i < b.len() ==> is_white(#[trigger] b[i]),
        s.len() > 0 ==> !is_white(s.last()),
    ensures
        trim_end(s + b) == s,
    decreases b.len(),
{
    if b.len() > 0 {
        let rest = b.drop_last();
        assert forall|i: int| 0 <= i < rest.len() implies is_white(#[trigger] rest[i]) by {
            assert(rest[i] == b[i]);
        }
        lemma_trim_end_of(s, rest);
        assert(is_white(b[b.len() - 1]));
        assert((s + b).last() == b.last());
        assert((s + b).drop_last() == s + rest);
    } else {
        assert(s + b == s);
    }
}

/// Taking the characters of a set off the start, or off the end, of a text takes all of them off,
/// and nothing else.
pub proof fn law_strip(a: Seq<char>, s: Seq<char>, b: Seq<char>, set: Seq<char>)
    requires
        forall|i: int| 0 <= i < a.len() ==> set.contains(#[trigger] a[i]),
        forall|i: int| 0 <= i < b.len() ==> set.contains(#[trigger] b[i]),
    ensures
        s.len() > 0 && !set.contains(s.first()) ==> strip_start(a + s, set) == s,
        s.len() > 0 && !set.contains(s.last()) ==> strip_end(s + b, set) == s,
        strip_start(a, set) == Seq::<char>::empty(),
        strip_end(b, set) == Seq::<char>::empty(),
{
    let none = Seq::<char>::empty();
    lemma_strip_start_of(a, s, set);
    lemma_strip_end_of(s, b, set);
    lemma_strip_start_of(a, none, set);
    lemma_strip_end_of(none, b, set);
    assert(a + none == a);
    assert(none + b == b);
}

proof fn lemma_strip_start_of(a: Seq<char>, s: Seq<char>, set: Seq<char>)
    requires
        forall|i: int| 0 <= i < a.len() ==> set.contains(#[trigger] a[i]),
    ensures
        strip_start(a + s, set) == strip_start(s, set),
    decreases a.len(),
{
    if a.len() > 0 {
        let rest = a.drop_first();
        assert forall|i: int| 0 <= i < rest.len() implies set.contains(#[trigger] rest[i]) by {
            assert(rest[i] == a[i + 1]);
        }
        lemma_strip_start_of(rest, s, set);
        assert(set.contains(a[0]));
        assert((a + s).first() == a[0]);
        assert((a + s).drop_first() == rest + s);
    } else {
        assert(a + s == s);
    }
}

proof fn lemma_strip_end_of(s: Seq<char>, b: Seq<char>, set: Seq<char>)
    requires
        forall|i: int| 0 <= i < b.len() ==> set.contains(#[trigger] b[i]),
    ensures
        strip_end(s + b, set) == strip_end(s, set),
    decreases b.len(),
{
    if b.len() > 0 {
        let rest = b.drop_last();
        assert forall|i: int| 0 <= i < rest.len() implies set.contains(#[trigger] rest[i]) by {
            assert(rest[i] == b[i]);
        }
        lemma_strip_end_of(s, rest, set);
        assert(set.contains(b[b.len() - 1]));
        assert((s + b).last() == b.last());
        assert((s + b).drop_last() == s + rest);
    } else {
        assert(s + b == s);
    }
}

/// A text is divided at the first of a character: what stands before it does not hold the
/// character, and the text is put together again from both parts.
pub proof fn law_divided(a: Seq<char>, c: char, b: Seq<char>)
    ensures
        !a.contains(c) ==> split_once(a + seq![c] + b, c) == Some((a, b)),
        !b.contains(c) ==> after_last(a + seq![c] + b, c) == Some(b),
        !a.contains(c) ==> split_once(a, c) is None && after_last(a, c) is None,
{
    let s = a + seq![c] + b;
    let k = a.len() as int;
    assert(s[k] == c);
    assert(s.take(k) == a);
    assert(s.skip(k + 1) == b);
    lemma_index_from(s, c, 0);
    lemma_index_from(a, c, 0);
    lemma_last_index_before(s, c, s.len() as int);
    lemma_last_index_before(a, c, a.len() as int);
    if !a.contains(c) {
        assert forall|j: int| 0 <= j < k implies s[j] != c by {
            assert(a.contains(a[j]));
        }
        assert(index(s, c) == Some(k));
        assert forall|j: int| 0 <= j < k implies a[j] != c by {
            assert(a.contains(a[j]));
        }
    }
    if !b.contains(c) {
        assert forall|j: int| k < j < s.len() implies s[j] != c by {
            assert(s[j] == b[j - k - 1]);
            assert(b.contains(b[j - k - 1]));
        }
        assert(last_index(s, c) == Some(k));
    }
}

/// What [`last_index_before`] returns is the last place before `i` where `c` stands in `s`.
proof fn lemma_last_index_before(s: Seq<char>, c: char, i: int)
    requires
        0 <= i <= s.len(),
    ensures
        match last_index_before(s, c, i) {
            Some(k) => 0 <= k < i && s[k] == c && forall|j: int| k < j < i ==> s[j] != c,
            None => forall|j: int| 0 <= j < i ==> s[j] != c,
        },
    decreases i,
{
    if i > 0 && s[i - 1] != c {
        lemma_last_index_before(s, c, i - 1);
    }
}

/// What a text begins with, or ends with, and what is left of it.
pub proof fn law_ends(p: Seq<char>, s: Seq<char>)
    ensures
        starts_with(p + s, p),
        ends_with(s + p, p),
        strip_prefix(p + s, p) == Some(s),
        strip_suffix(s + p, p) == Some(s),
        starts_with(s, p) <==> p.len() <= s.len() && forall|i: int|
            0 <= i < p.len() ==> #[trigger] s[i] == p[i],
        ends_with(s, p) <==> p.len() <= s.len() && forall|i: int|
            0 <= i < p.len() ==> s[s.len() - p.len() + i] == #[trigger] p[i],
        strip_prefix(s, p) is Some <==> starts_with(s, p),
        strip_suffix(s, p) is Some <==> ends_with(s, p),
{
    assert((p + s).take(p.len() as int) == p);
    assert((p + s).skip(p.len() as int) == s);
    assert((s + p).skip(s.len() as int) == p);
    assert((s + p).take(s.len() as int) == s);
    if starts_with(s, p) {
        assert forall|i: int| 0 <= i < p.len() implies #[trigger] s[i] == p[i] by {
            assert(s.take(p.len() as int)[i] == p[i]);
        }
    }
    if p.len() <= s.len() && forall|i: int| 0 <= i < p.len() ==> #[trigger] s[i] == p[i] {
        assert(s.take(p.len() as int) =~= p);
    }
    if ends_with(s, p) {
        assert forall|i: int| 0 <= i < p.len() implies s[s.len() - p.len() + i] == #[trigger] p[i] by {
            assert(s.skip(s.len() - p.len())[i] == p[i]);
        }
    }
    if p.len() <= s.len() && forall|i: int|
        0 <= i < p.len() ==> s[s.len() - p.len() + i] == #[trigger] p[i] {
        assert(s.skip(s.len() - p.len()) =~= p);
    }
}

/// A text holds another one exactly if it is put together from something, that text and something.
pub proof fn law_holds(a: Seq<char>, p: Seq<char>, b: Seq<char>)
    ensures
        contains(a + p + b, p),
        contains(a, p) <==> exists|i: int|
            #![trigger a.subrange(i, i + p.len())]
            0 <= i && i + p.len() <= a.len() && a.subrange(i, i + p.len()) == p,
{
    let s = a + p + b;
    let i = a.len() as int;
    assert(s.subrange(i, i + p.len()) == p);
    assert(occurs_at(s, p, i));
    if contains(a, p) {
        let k = choose|k: int| occurs_at(a, p, k);
        assert(a.subrange(k, k + p.len()) == p);
    }
    if exists|i: int|
        #![trigger a.subrange(i, i + p.len())]
        0 <= i && i + p.len() <= a.len() && a.subrange(i, i + p.len()) == p {
        let k = choose|i: int|
            #![trigger a.subrange(i, i + p.len())]
            0 <= i && i + p.len() <= a.len() && a.subrange(i, i + p.len()) == p;
        assert(occurs_at(a, p, k));
    }
}

/// The pieces of a text, put together again with the separator between them, are the text, and no
/// piece holds the separator.
pub proof fn law_pieces_make_the_text(s: Seq<char>, c: char)
    ensures
        join(split(s, seq![c]), seq![c]) == s,
        forall|i: int| 0 <= i < split(s, seq![c]).len() ==> !(#[trigger] split(s, seq![c])[i]).contains(c),
    decreases s.len(),
{
    let seps = seq![c];
    let all = split(s, seps);
    if s.len() == 0 {
        assert(s == Seq::<char>::empty());
        assert(all == seq![s]);
    } else {
        let init = s.drop_last();
        law_pieces_make_the_text(init, c);
        lemma_split_nonempty(init, seps);
        let before = split(init, seps);
        assert(seps.contains(s.last()) <==> s.last() == c) by {
            assert(seps[0] == c);
        }
        if s.last() == c {
            assert(all.drop_last() == before);
            assert(join(all, seps) == join(before, seps) + seps + Seq::<char>::empty());
            assert(join(all, seps) == s);
        } else {
            let last = before.last().push(s.last());
            assert(all.drop_last() == before.drop_last());
            if before.len() == 1 {
                assert(all.len() == 1);
                assert(join(before, seps) == before[0]);
                assert(all[0] == init.push(s.last()));
                assert(init.push(s.last()) == s);
                assert(join(all, seps) == s);
            } else {
                assert(join(all, seps) == join(before.drop_last(), seps) + seps + last);
                assert(join(before, seps) == join(before.drop_last(), seps) + seps + before.last());
                assert(join(all, seps) == join(before, seps).push(s.last()));
                assert(init.push(s.last()) == s);
                assert(join(all, seps) == s);
            }
        }
        assert forall|i: int| 0 <= i < all.len() implies !(#[trigger] all[i]).contains(c) by {
            if i < before.len() - 1 {
                assert(all[i] == before[i]);
            } else if i == before.len() - 1 {
                assert(!before[i].contains(c));
                if s.last() == c {
                    assert(all[i] == before[i]);
                } else {
                    assert forall|j: int| 0 <= j < all[i].len() implies all[i][j] != c by {
                        if j < before[i].len() {
                            assert(before[i].contains(before[i][j]));
                        }
                    }
                }
            }
        }
    }
}

/// Joining puts the separator between parts and nowhere else.
pub proof fn law_join(a: Seq<Seq<char>>, b: Seq<Seq<char>>, x: Seq<char>, sep: Seq<char>)
    ensures
        join(Seq::empty(), sep) == Seq::<char>::empty(),
        join(seq![x], sep) == x,
        a.len() > 0 && b.len() > 0 ==> join(a + b, sep) == join(a, sep) + sep + join(b, sep),
    decreases b.len(),
{
    if a.len() > 0 && b.len() > 0 {
        let whole = a + b;
        assert(whole.last() == b.last());
        if b.len() == 1 {
            assert(whole.drop_last() == a);
            assert(join(whole, sep) == join(a, sep) + sep + b[0]);
        } else {
            law_join(a, b.drop_last(), x, sep);
            assert(whole.drop_last() == a + b.drop_last());
            assert(join(whole, sep) == join(a, sep) + sep + join(b, sep));
        }
    }
}

/// The lines of a text whose last line has not ended: those before it, and that one, as it is.
pub proof fn law_last_line(before: Seq<char>, rest: Seq<char>)
    requires
        before.len() == 0 || before.last() == '\n',
        !rest.contains('\n'),
        rest.len() > 0,
    ensures
        lines(before + rest) == lines(before).push(rest),
        lines(Seq::empty()) == Seq::<Seq<char>>::empty(),
{
    let seps = seq!['\n'];
    let empty = Seq::<char>::empty();
    assert(seps[0] == '\n');
    assert forall|i: int| 0 <= i < rest.len() implies !seps.contains(#[trigger] rest[i]) by {
        assert(rest.contains(rest[i]));
    }
    lemma_split_whole(rest, seps);
    assert(split(empty, seps) == seq![empty]);
    assert(lines(empty) == Seq::<Seq<char>>::empty());
    if before.len() == 0 {
        assert(before == empty);
        assert(before + rest == rest);
        assert(lines(rest) == seq![rest]);
    } else {
        let head = before.drop_last();
        assert(head.push('\n') == before);
        lemma_split_append(head, '\n', rest, seps);
        lemma_split_append(head, '\n', empty, seps);
        assert(before + empty == before);
        let x = split(head, seps);
        assert(split(before, seps) == x + seq![empty]);
        assert(split(before + rest, seps) == x + seq![rest]);
        assert(lines(before) == Seq::new(x.len(), |i: int| chomp(x[i])));
        assert(lines(before + rest) == lines(before).push(rest));
    }
}

/// A line that has ended is one more line, without its line feed and without one carriage return
/// before that.
pub proof fn law_finished_line(before: Seq<char>, line: Seq<char>)
    requires
        before.len() == 0 || before.last() == '\n',
        !line.contains('\n'),
    ensures
        lines(before + line + seq!['\r', '\n']) == lines(before).push(line),
        line.len() == 0 || line.last() != '\r' ==> lines(before + line + seq!['\n']) == lines(
            before,
        ).push(line),
{
    let ended = line.push('\r');
    assert forall|i: int| 0 <= i < ended.len() implies ended[i] != '\n' by {
        if i < line.len() {
            assert(line.contains(line[i]));
        }
    }
    lemma_lines_push(before, line);
    lemma_lines_push(before, ended);
    assert(before + line + seq!['\r', '\n'] == before + ended.push('\n'));
    assert(before + line + seq!['\n'] == before + line.push('\n'));
    assert(ended.drop_last() == line);
}

/// White space parts words: a text without white space is a word, and the words on both sides of
/// white space are the words of the whole.
pub proof fn law_words(a: Seq<char>, c: char, b: Seq<char>)
    requires
        is_white(c),
    ensures
        words(a + seq![c] + b) == words(a) + words(b),
        words(Seq::empty()) == Seq::<Seq<char>>::empty(),
        a.len() > 0 && (forall|i: int| 0 <= i < a.len() ==> !is_white(#[trigger] a[i])) ==> words(a)
            == seq![a],
{
    lemma_words_append(a, c, b);
    if a.len() > 0 && forall|i: int| 0 <= i < a.len() ==> !is_white(#[trigger] a[i]) {
        lemma_one_word(a);
        assert(words(a) == seq![a]);
    }
    let none = Seq::<char>::empty();
    assert(words_so_far(none) == (Seq::<Seq<char>>::empty(), none));
}

proof fn lemma_one_word(a: Seq<char>)
    requires
        forall|i: int| 0 <= i < a.len() ==> !is_white(#[trigger] a[i]),
    ensures
        words_so_far(a) == (Seq::<Seq<char>>::empty(), a),
    decreases a.len(),
{
    if a.len() > 0 {
        let init = a.drop_last();
        assert forall|i: int| 0 <= i < init.len() implies !is_white(#[trigger] init[i]) by {
            assert(init[i] == a[i]);
        }
        lemma_one_word(init);
        assert(!is_white(a[a.len() - 1]));
        assert(init.push(a.last()) == a);
    } else {
        assert(a == Seq::<char>::empty());
    }
}

proof fn lemma_words_append(a: Seq<char>, c: char, b: Seq<char>)
    requires
        is_white(c),
    ensures
        words_so_far(a + seq![c] + b).0 == words(a) + words_so_far(b).0,
        words_so_far(a + seq![c] + b).1 == words_so_far(b).1,
        words(a + seq![c] + b) == words(a) + words(b),
    decreases b.len(),
{
    let whole = a + seq![c] + b;
    if b.len() == 0 {
        assert(whole.drop_last() == a);
        assert(whole.last() == c);
        assert(b == Seq::<char>::empty());
        assert(words_so_far(whole).0 == words(a));
        assert(words(a) + words_so_far(b).0 == words(a));
    } else {
        let init = b.drop_last();
        lemma_words_append(a, c, init);
        assert(whole.drop_last() == a + seq![c] + init);
        assert(whole.last() == b.last());
        let (done, cur) = words_so_far(init);
        assert((words(a) + done).push(cur) == words(a) + done.push(cur));
    }
    let (done, cur) = words_so_far(b);
    assert((words(a) + done).push(cur) == words(a) + done.push(cur));
}

/// A text stands before another one exactly if, where they first differ, its character comes first
/// in the order of code points, or it has ended there.
pub proof fn law_precedes(p: Seq<char>, a: Seq<char>, b: Seq<char>, x: char, y: char)
    ensures
        precedes(p, p + seq![y] + b),
        !precedes(p + seq![y] + b, p),
        x != y ==> (precedes(p + seq![x] + a, p + seq![y] + b) <==> x < y),
        !precedes(p, p),
{
    lemma_precedes_irreflexive(p);
    let none = Seq::<char>::empty();
    assert(p + none == p);
    lemma_precedes_after(p, none, seq![y] + b);
    lemma_precedes_after(p, seq![y] + b, none);
    lemma_precedes_after(p, seq![x] + a, seq![y] + b);
    assert(p + seq![y] + b == p + (seq![y] + b));
    assert(p + seq![x] + a == p + (seq![x] + a));
    assert((seq![x] + a).first() == x);
    assert((seq![y] + b).first() == y);
}

/// A row of strings is seen string by string.
pub proof fn law_rows_of_text(a: Seq<String>, b: Seq<Vec<char>>)
    ensures
        texts(a).len() == a.len(),
        forall|i: int| 0 <= i < a.len() ==> #[trigger] texts(a)[i] == a[i]@,
        pieces(b).len() == b.len(),
        forall|i: int| 0 <= i < b.len() ==> #[trigger] pieces(b)[i] == b[i]@,
{
}

} // verus!
