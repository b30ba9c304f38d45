//! Percent-encoding, and the parameters of a query.
use vstd::prelude::*;
use vstd::utf8::{
    decode_utf8, encode_utf8, encode_utf8_decode_utf8, encode_utf8_valid_utf8, is_ascii_chars,
    is_ascii_chars_encode_utf8, valid_utf8,
};

use crate::numbers::{hex_digit, hex_value, is_hex};
use crate::text::{
    chars_of, divided, index, lemma_index_from, lemma_split_whole, pieces, same_chars, split,
    split_on, split_once, string_of,
};
use crate::unicode::{from_utf8_lossy, utf8_lossy};

verus! {

/// The bytes that stand for themselves: ASCII letters, digits, and `-`, `_`, `.`, `~`.
pub open spec fn is_unreserved(b: u8) -> bool {
    ||| 65 <= b <= 90
    ||| 97 <= b <= 122
    ||| 48 <= b <= 57
    ||| b == 45
    ||| b == 95
    ||| b == 46
    ||| b == 126
}

/// The hexadecimal digit for `d` below sixteen, with capitals.
pub open spec fn hex_capital(d: u8) -> u8 {
    if d < 10 {
        (48 + d) as u8
    } else {
        (55 + d) as u8
    }
}

/// What the byte `b` is written as.
pub open spec fn encode_byte(b: u8) -> Seq<u8> {
    if is_unreserved(b) {
        seq![b]
    } else {
        seq![37u8, hex_capital(b / 16), hex_capital(b % 16)]
    }
}

/// What `bytes` are written as.
pub open spec fn encode_bytes(bytes: Seq<u8>) -> Seq<u8>
    decreases bytes.len(),
{
    if bytes.len() == 0 {
        Seq::empty()
    } else {
        encode_bytes(bytes.drop_last()) + encode_byte(bytes.last())
    }
}

/// ASCII bytes as characters.
pub open spec fn as_chars(bytes: Seq<u8>) -> Seq<char> {
    Seq::new(bytes.len(), |i: int| bytes[i] as char)
}

/// The percent-encoded form of `s`: every byte of its UTF-8 form that is not unreserved becomes
/// `%` and two hexadecimal digits.
pub open spec fn percent_encoded(s: Seq<char>) -> Seq<char> {
    as_chars(encode_bytes(encode_utf8(s)))
}

/// The byte that two bytes after a `%` stand for: two hexadecimal digits, or a plus sign and one.
pub open spec fn escaped(hi: u8, lo: u8) -> Option<u8> {
    let a = hi as char;
    let b = lo as char;
    if !is_hex(b) {
        None
    } else if a == '+' {
        Some(hex_value(b) as u8)
    } else if is_hex(a) {
        Some((hex_value(a) * 16 + hex_value(b)) as u8)
    } else {
        None
    }
}

/// The bytes that `bytes` are the encoded form of. A `+` stands for a space, and a `%` that no
/// two hexadecimal digits follow stands for itself.
pub open spec fn decode_bytes(bytes: Seq<u8>) -> Seq<u8>
    decreases bytes.len(),
{
    if bytes.len() == 0 {
        Seq::empty()
    } else if bytes[0] == 37 && bytes.len() > 2 && escaped(bytes[1], bytes[2]) is Some {
        seq![escaped(bytes[1], bytes[2])->0] + decode_bytes(bytes.skip(3))
    } else if bytes[0] == 43 {
        seq![32u8] + decode_bytes(bytes.skip(1))
    } else {
        seq![bytes[0]] + decode_bytes(bytes.skip(1))
    }
}

/// The text that `s` is the percent-encoded form of.
pub open spec fn percent_decoded(s: Seq<char>) -> Seq<char> {
    utf8_lossy(decode_bytes(encode_utf8(s)))
}

/// The value of the first of `parts` that has the form `key=value`, percent-decoded.
pub open spec fn first_value(parts: Seq<Seq<char>>, key: Seq<char>) -> Option<Seq<char>>
    decreases parts.len(),
{
    if parts.len() == 0 {
        None
    } else {
        match split_once(parts.first(), '=') {
            Some((k, v)) => if k == key {
                Some(percent_decoded(v))
            } else {
                first_value(parts.drop_first(), key)
            },
            None => first_value(parts.drop_first(), key),
        }
    }
}

/// The value of the parameter `key` in `query`.
pub open spec fn query_value(query: Seq<char>, key: Seq<char>) -> Option<Seq<char>> {
    first_value(split(query, seq!['&']), key)
}

/// A hexadecimal digit, with capitals.
fn hex_capital_of(d: u8) -> (r: u8)
    requires
        d < 16,
    ensures
        r == hex_capital(d),
{
    if d < 10 {
        48 + d
    } else {
        55 + d
    }
}

/// The percent-encoded form of `s`.
pub fn url_encode(s: &str) -> (r: String)
    ensures
        r@ == percent_encoded(s@),
{
    let bytes = s.as_bytes();
    let mut out = String::new();
    let n: usize = bytes.len();
    for i in 0..n
        invariant
            n == bytes@.len(),
            out@ == as_chars(encode_bytes(bytes@.take(i as int))),
    {
        let b = bytes[i];
        assert(bytes@.take(i + 1).drop_last() == bytes@.take(i as int));
        let ghost before = encode_bytes(bytes@.take(i as int));
        if (65 <= b && b <= 90) || (97 <= b && b <= 122) || (48 <= b && b <= 57) || b == 45 || b
            == 95 || b == 46 || b == 126 {
            out.push(b as char);
            assert(out@ == as_chars(before + encode_byte(b)));
        } else {
            out.push('%');
            out.push(hex_capital_of(b / 16) as char);
            out.push(hex_capital_of(b % 16) as char);
            assert(out@ == as_chars(before + encode_byte(b)));
        }
    }
    assert(bytes@.take(n as int) == bytes@);
    out
}

/// The percent-encoded form of one segment of a path.
pub fn percent_encode_path(s: &str) -> (r: String)
    ensures
        r@ == percent_encoded(s@),
{
    url_encode(s)
}

/// The byte that two bytes after a `%` stand for.
fn escaped_byte(hi: u8, lo: u8) -> (r: Option<u8>)
    ensures
        r == escaped(hi, lo),
{
    match hex_digit(lo as char) {
        None => None,
        Some(y) => if hi == 43 {
            Some(y)
        } else {
            match hex_digit(hi as char) {
                None => None,
                Some(x) => Some(x * 16 + y),
            }
        },
    }
}

/// The text that `s` is the percent-encoded form of. Decoding undoes encoding.
pub fn url_decode(s: &str) -> (r: String)
    ensures
        r@ == percent_decoded(s@),
        forall|t: Seq<char>| s@ == #[trigger] percent_encoded(t) ==> r@ == t,
{
    let bytes = s.as_bytes();
    let n: usize = bytes.len();
    let mut out: Vec<u8> = Vec::new();
    let mut i: usize = 0;
    assert(bytes@.skip(0) == bytes@);
    while i < n
        invariant
            i <= n,
            n == bytes@.len(),
            decode_bytes(bytes@) == out@ + decode_bytes(bytes@.skip(i as int)),
        decreases n - i,
    {
        let ghost rest = bytes@.skip(i as int);
        assert(rest.skip(1) == bytes@.skip(i + 1));
        if bytes[i] == 37 && n - i > 2 {
            assert(rest.skip(3) == bytes@.skip(i + 3));
            match escaped_byte(bytes[i + 1], bytes[i + 2]) {
                Some(v) => {
                    out.push(v);
                    i = i + 3;
                },
                None => {
                    out.push(37);
                    i = i + 1;
                },
            }
        } else if bytes[i] == 43 {
            out.push(32);
            i = i + 1;
        } else {
            out.push(bytes[i]);
            i = i + 1;
        }
    }
    assert(bytes@.skip(n as int) == Seq::<u8>::empty());
    assert(out@ == decode_bytes(bytes@));
    proof {
        assert forall|t: Seq<char>| s@ == #[trigger] percent_encoded(t) implies valid_utf8(out@)
            && decode_utf8(out@) == t by {
            law_decoding_undoes_encoding(t);
        }
    }
    from_utf8_lossy(&out)
}

/// The value of the parameter `key` in `query`: that of the first `key=value` between the `&`
/// signs, percent-decoded. A query that holds one parameter gives back what was encoded into it.
pub fn query_param(query: &str, key: &str) -> (r: Option<String>)
    ensures
        match r {
            Some(v) => query_value(query@, key@) == Some(v@),
            None => query_value(query@, key@) is None,
        },
        !key@.contains('&') && !key@.contains('=') ==> forall|v: Seq<char>|
            query@ == key@ + seq!['='] + #[trigger] percent_encoded(v) ==> match r {
                Some(t) => t@ == v,
                None => false,
            },
{
    let q = chars_of(query);
    let k = chars_of(key);
    let sep: Vec<char> = vec!['&'];
    assert(sep@ == seq!['&']);
    let parts = split_on(&q, &sep);
    let ghost all = pieces(parts@);
    let n: usize = parts.len();
    assert(all.skip(0) == all);
    for i in 0..n
        invariant
            n == parts@.len(),
            all == pieces(parts@),
            k@ == key@,
            all == split(query@, seq!['&']),
            first_value(all, key@) == first_value(all.skip(i as int), key@),
    {
        assert(all.skip(i as int).drop_first() == all.skip(i + 1));
        assert(all.skip(i as int).first() == parts@[i as int]@);
        if let Some((name, value)) = divided(&parts[i], '=') {
            if same_chars(name, &k) {
                let text = string_of(value);
                proof {
                    if !key@.contains('&') && !key@.contains('=') {
                        assert forall|v: Seq<char>|
                            query@ == key@ + seq!['='] + #[trigger] percent_encoded(v) implies text@
                            == percent_encoded(v) by {
                            lemma_one_parameter(key@, v);
                            assert(all.len() == 1);
                        }
                    }
                }
                return Some(url_decode(text.as_str()));
            }
        }
    }
    assert(all.skip(n as int) == Seq::<Seq<char>>::empty());
    proof {
        if !key@.contains('&') && !key@.contains('=') {
            assert forall|v: Seq<char>|
                query@ == key@ + seq!['='] + #[trigger] percent_encoded(v) implies false by {
                law_query_value(key@, v);
            }
        }
    }
    None
}

// ---------------------------------------------------------------------------------------------
// Laws
// ---------------------------------------------------------------------------------------------
proof fn lemma_encode_bytes_first(bytes: Seq<u8>)
    requires
        bytes.len() > 0,
    ensures
        encode_bytes(bytes) == encode_byte(bytes.first()) + encode_bytes(bytes.drop_first()),
    decreases bytes.len(),
{
    if bytes.len() == 1 {
        assert(bytes.drop_last() == Seq::<u8>::empty());
        assert(bytes.drop_first() == Seq::<u8>::empty());
        assert(encode_bytes(Seq::<u8>::empty()) == Seq::<u8>::empty());
    } else {
        lemma_encode_bytes_first(bytes.drop_last());
        assert(bytes.drop_last().drop_first() == bytes.drop_first().drop_last());
        assert(bytes.drop_last().first() == bytes.first());
        assert(bytes.drop_first().last() == bytes.last());
    }
}

proof fn lemma_escape(b: u8)
    ensures
        hex_capital(b / 16) < 128,
        hex_capital(b % 16) < 128,
        escaped(hex_capital(b / 16), hex_capital(b % 16)) == Some(b),
{
}

proof fn lemma_encode_bytes_ascii(bytes: Seq<u8>)
    ensures
        forall|i: int| 0 <= i < encode_bytes(bytes).len() ==> #[trigger] encode_bytes(bytes)[i] < 128,
    decreases bytes.len(),
{
    if bytes.len() > 0 {
        let init = encode_bytes(bytes.drop_last());
        lemma_encode_bytes_ascii(bytes.drop_last());
        lemma_escape(bytes.last());
        assert forall|i: int| 0 <= i < encode_bytes(bytes).len() implies #[trigger] encode_bytes(
            bytes,
        )[i] < 128 by {
            if i < init.len() {
                assert(encode_bytes(bytes)[i] == init[i]);
            } else {
                assert(encode_bytes(bytes)[i] == encode_byte(bytes.last())[i - init.len()]);
            }
        }
    }
}

/// Decoding undoes encoding, byte for byte.
proof fn lemma_decode_encode_bytes(bytes: Seq<u8>)
    ensures
        decode_bytes(encode_bytes(bytes)) == bytes,
    decreases bytes.len(),
{
    if bytes.len() > 0 {
        let b = bytes.first();
        let rest = bytes.drop_first();
        lemma_encode_bytes_first(bytes);
        lemma_decode_encode_bytes(rest);
        lemma_escape(b);
        let e = encode_bytes(bytes);
        assert(bytes == seq![b] + rest);
        if is_unreserved(b) {
            assert(e.skip(1) == encode_bytes(rest));
        } else {
            assert(e.skip(3) == encode_bytes(rest));
        }
    } else {
        assert(encode_bytes(bytes) == Seq::<u8>::empty());
        assert(bytes == Seq::<u8>::empty());
    }
}

/// The bytes of a percent-encoded text are the bytes that it was put together from.
proof fn lemma_encoded_bytes(s: Seq<char>)
    ensures
        encode_utf8(percent_encoded(s)) == encode_bytes(encode_utf8(s)),
{
    let e = encode_bytes(encode_utf8(s));
    let c = percent_encoded(s);
    lemma_encode_bytes_ascii(encode_utf8(s));
    assert forall|i: int| 0 <= i < c.len() implies 0 <= #[trigger] c[i] as nat && (c[i] as nat)
        < 128 by {
        assert(e[i] < 128);
    }
    assert(is_ascii_chars(c));
    is_ascii_chars_encode_utf8(c);
    assert forall|i: int| 0 <= i < e.len() implies (#[trigger] c[i]) as u8 == e[i] by {
        assert(e[i] < 128);
    }
    assert(encode_utf8(c) == e);
}

/// What percent-encoding writes are bytes of UTF-8 whose decoded form is the text again.
pub proof fn law_decoding_undoes_encoding(s: Seq<char>)
    ensures
        decode_bytes(encode_utf8(percent_encoded(s))) == encode_utf8(s),
        valid_utf8(decode_bytes(encode_utf8(percent_encoded(s)))),
        decode_utf8(decode_bytes(encode_utf8(percent_encoded(s)))) == s,
{
    lemma_encoded_bytes(s);
    lemma_decode_encode_bytes(encode_utf8(s));
    encode_utf8_valid_utf8(s);
    encode_utf8_decode_utf8(s);
}

/// Percent-encoded text holds no `&` and no `=`.
proof fn lemma_encoded_chars(bytes: Seq<u8>)
    ensures
        forall|i: int|
            0 <= i < encode_bytes(bytes).len() ==> #[trigger] encode_bytes(bytes)[i] != 38 && encode_bytes(
                bytes,
            )[i] != 61,
    decreases bytes.len(),
{
    if bytes.len() > 0 {
        let init = encode_bytes(bytes.drop_last());
        lemma_encoded_chars(bytes.drop_last());
        assert forall|i: int| 0 <= i < encode_bytes(bytes).len() implies #[trigger] encode_bytes(
            bytes,
        )[i] != 38 && encode_bytes(bytes)[i] != 61 by {
            if i < init.len() {
                assert(encode_bytes(bytes)[i] == init[i]);
            } else {
                assert(encode_bytes(bytes)[i] == encode_byte(bytes.last())[i - init.len()]);
            }
        }
    }
}

/// A query that holds one parameter is one part, and its name and value stand around its first
/// `=`.
proof fn lemma_one_parameter(key: Seq<char>, value: Seq<char>)
    requires
        !key.contains('&'),
        !key.contains('='),
    ensures
        ({
            let query = key + seq!['='] + percent_encoded(value);
            &&& split(query, seq!['&']) == seq![query]
            &&& split_once(query, '=') == Some((key, percent_encoded(value)))
        }),
{
    let enc = percent_encoded(value);
    let query = key + seq!['='] + enc;
    let bytes = encode_bytes(encode_utf8(value));
    lemma_encoded_chars(encode_utf8(value));
    lemma_encode_bytes_ascii(encode_utf8(value));
    let seps = seq!['&'];
    assert forall|i: int| 0 <= i < query.len() implies !seps.contains(#[trigger] query[i]) by {
        if i < key.len() {
            assert(query[i] == key[i]);
            assert(key.contains(key[i]));
        } else if i > key.len() {
            assert(query[i] == enc[i - key.len() - 1]);
            assert(bytes[i - key.len() - 1] != 38);
        }
    }
    lemma_split_whole(query, seps);
    lemma_index_from(query, '=', 0);
    assert(query[key.len() as int] == '=');
    assert forall|j: int| 0 <= j < key.len() implies query[j] != '=' by {
        assert(key.contains(key[j]));
    }
    assert(index(query, '=') == Some(key.len() as int));
    assert(query.take(key.len() as int) == key);
    assert(query.skip(key.len() as int + 1) == enc);
}

/// A query that holds one parameter gives its value: what is decoded out of it is what was encoded
/// into it, decoded.
pub proof fn law_query_value(key: Seq<char>, value: Seq<char>)
    requires
        !key.contains('&'),
        !key.contains('='),
    ensures
        query_value(key + seq!['='] + percent_encoded(value), key) == Some(
            percent_decoded(percent_encoded(value)),
        ),
{
    let query = key + seq!['='] + percent_encoded(value);
    lemma_one_parameter(key, value);
    assert(seq![query].first() == query);
}

/// A byte is written as itself where it is an ASCII letter or digit, a hyphen, a dot, an underscore
/// or a tilde; every other byte as `%` and its two hexadecimal digits, in capitals.
pub proof fn law_how_bytes_are_written(a: Seq<u8>, b: u8)
    ensures
        encode_bytes(Seq::empty()) == Seq::<u8>::empty(),
        48 <= b <= 57 || 65 <= b <= 90 || 97 <= b <= 122 || b == 45 || b == 46 || b == 95 || b == 126
            ==> encode_bytes(a.push(b)) == encode_bytes(a).push(b),
        !(48 <= b <= 57 || 65 <= b <= 90 || 97 <= b <= 122 || b == 45 || b == 46 || b == 95 || b == 126)
            ==> {
            let hi = b / 16;
            let lo = b % 16;
            encode_bytes(a.push(b)) == encode_bytes(a) + seq![
                37u8,
                (if hi < 10 {
                    hi + 48
                } else {
                    hi - 10 + 65
                }) as u8,
                (if lo < 10 {
                    lo + 48
                } else {
                    lo - 10 + 65
                }) as u8,
            ]
        },
{
    assert(a.push(b).drop_last() == a);
    assert(encode_bytes(a) + seq![b] == encode_bytes(a).push(b));
}

/// The characters of percent-encoded text are the bytes of its UTF-8 form, each written by itself.
pub proof fn law_encoded_text(s: Seq<char>, i: int)
    requires
        0 <= i < percent_encoded(s).len(),
    ensures
        percent_encoded(s).len() == encode_bytes(encode_utf8(s)).len(),
        percent_encoded(s)[i] as int == encode_bytes(encode_utf8(s))[i],
        ({
            let c = percent_encoded(s)[i];
            'a' <= c <= 'z' || 'A' <= c <= 'Z' || '0' <= c <= '9' || c == '-' || c == '.' || c == '_' || c
                == '~' || c == '%'
        }),
{
    let bytes = encode_utf8(s);
    lemma_encode_bytes_ascii(bytes);
    lemma_encoded_alphabet(bytes);
    let b = encode_bytes(bytes)[i];
    assert(b < 128);
    assert(percent_encoded(s)[i] == b as char);
}

proof fn lemma_encoded_alphabet(bytes: Seq<u8>)
    ensures
        forall|i: int|
            0 <= i < encode_bytes(bytes).len() ==> is_unreserved(#[trigger] encode_bytes(bytes)[i])
                || encode_bytes(bytes)[i] == 37,
    decreases bytes.len(),
{
    if bytes.len() > 0 {
        let init = encode_bytes(bytes.drop_last());
        lemma_encoded_alphabet(bytes.drop_last());
        assert forall|i: int| 0 <= i < encode_bytes(bytes).len() implies is_unreserved(
            #[trigger] encode_bytes(bytes)[i],
        ) || encode_bytes(bytes)[i] == 37 by {
            if i < init.len() {
                assert(encode_bytes(bytes)[i] == init[i]);
            } else {
                assert(encode_bytes(bytes)[i] == encode_byte(bytes.last())[i - init.len()]);
            }
        }
    }
}

/// In a query, a parameter has the value of the first part that gives one for it: what stands after
/// the first `=`, decoded. Parts that give values for others, and parts without `=`, do not count.
pub proof fn law_query_of_many(k: Seq<char>, v: Seq<char>, rest: Seq<char>, key: Seq<char>)
    requires
        !k.contains('&'),
        !k.contains('='),
        !v.contains('&'),
    ensures
        query_value(k + seq!['='] + v + seq!['&'] + rest, key) == (if k == key {
            Some(percent_decoded(v))
        } else {
            query_value(rest, key)
        }),
        query_value(k + seq!['='] + v, key) == (if k == key {
            Some(percent_decoded(v))
        } else {
            None
        }),
        query_value(k + seq!['&'] + rest, key) == query_value(rest, key),
        query_value(k, key) is None,
{
    let part = k + seq!['='] + v;
    let seps = seq!['&'];
    assert(seps[0] == '&');
    assert forall|i: int| 0 <= i < part.len() implies !seps.contains(#[trigger] part[i]) by {
        if i < k.len() {
            assert(k.contains(k[i]));
        } else if i > k.len() {
            assert(part[i] == v[i - k.len() - 1]);
            assert(v.contains(v[i - k.len() - 1]));
        }
    }
    assert forall|i: int| 0 <= i < k.len() implies !seps.contains(#[trigger] k[i]) by {
        assert(k.contains(k[i]));
    }
    lemma_split_whole(part, seps);
    lemma_split_whole(k, seps);
    crate::text::lemma_split_append(part, '&', rest, seps);
    crate::text::lemma_split_append(k, '&', rest, seps);
    assert(part + seq!['&'] + rest == part.push('&') + rest);
    assert(k + seq!['&'] + rest == k.push('&') + rest);
    crate::text::law_divided(k, '=', v);
    let tail = split(rest, seps);
    assert((seq![part] + tail).first() == part);
    assert((seq![part] + tail).drop_first() == tail);
    assert((seq![k] + tail).first() == k);
    assert((seq![k] + tail).drop_first() == tail);
    assert(seq![part].drop_first() == Seq::<Seq<char>>::empty());
    assert(seq![k].drop_first() == Seq::<Seq<char>>::empty());
    assert(seq![part].first() == part && seq![k].first() == k);
    assert(first_value(Seq::<Seq<char>>::empty(), key) is None);
}

/// A plus sign stands for a space, `%` and two hexadecimal digits for a byte; every other byte for
/// itself.
pub proof fn law_how_bytes_are_read(b: u8, x: u8, y: u8, rest: Seq<u8>)
    ensures
        decode_bytes(Seq::empty()) == Seq::<u8>::empty(),
        decode_bytes(seq![43u8] + rest) == seq![32u8] + decode_bytes(rest),
        b != 37 && b != 43 ==> decode_bytes(seq![b] + rest) == seq![b] + decode_bytes(rest),
        is_hex(x as char) && is_hex(y as char) ==> decode_bytes(seq![37u8, x, y] + rest) == seq![
            (16 * hex_value(x as char) + hex_value(y as char)) as u8,
        ] + decode_bytes(rest),
{
    assert((seq![43u8] + rest).skip(1) == rest);
    assert((seq![b] + rest).skip(1) == rest);
    assert((seq![37u8, x, y] + rest).skip(3) == rest);
}

} // verus!
