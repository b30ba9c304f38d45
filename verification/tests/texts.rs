use panelmc::numbers::{
    decimal_of, hex_digit, read_hex16, read_port, read_signed, read_up_to, signed_decimal_of,
    two_digits_of,
};
use panelmc::percent::{percent_encode_path, query_param, url_decode, url_encode};
use panelmc::sorting::sorted_order;
use panelmc::text::{
    alphanumeric, before, begins_with, cat5, chars_of, divided, finishes_with, has, join_texts,
    last_index_of, lines_of, same_ignoring_case, split_on, string_of, stripped_end,
    stripped_start, tail_after, to_lower, trim_text, white, without_prefix, without_suffix,
    words_of,
};

fn strings(parts: &[Vec<char>]) -> Vec<String> {
    parts.iter().map(|p| p.iter().collect()).collect()
}

const SAMPLES: [&str; 12] = [
    "",
    " ",
    "a",
    "  a b  ",
    "\u{a0}x\u{3000}",
    "line\r\nnext\n\nlast\r",
    "a\n",
    "\n",
    "çalışıyor: 25565 . ",
    "a.b-c.d",
    "İıŞş",
    "tab\tand\u{85}more\u{2028}",
];

#[test]
fn white_space_is_that_of_unicode() {
    for n in 0..=0x10ffff_u32 {
        if let Some(c) = char::from_u32(n) {
            assert_eq!(white(c), c.is_whitespace(), "{:?}", c);
            assert_eq!(alphanumeric(c), c.is_ascii_alphanumeric(), "{:?}", c);
        }
    }
}

#[test]
fn text_functions_agree_with_std() {
    for s in SAMPLES {
        let cs = chars_of(s);
        assert_eq!(string_of(&cs), s);
        assert_eq!(trim_text(s), s.trim());
        assert_eq!(strings(&lines_of(&cs)), s.lines().collect::<Vec<_>>());
        assert_eq!(strings(&words_of(&cs)), s.split_whitespace().collect::<Vec<_>>());
        assert_eq!(strings(&split_on(&cs, &['.', '-'])), s.split(['.', '-']).collect::<Vec<_>>());
        assert_eq!(string_of(&to_lower(&cs)), s.to_ascii_lowercase());
        assert_eq!(string_of(stripped_end(&cs, &['\r', '\n'])), s.trim_end_matches(['\r', '\n']));
        assert_eq!(string_of(stripped_start(&cs, &[' ', 'a'])), s.trim_start_matches([' ', 'a']));
        assert_eq!(
            divided(&cs, ':').map(|(a, b)| (string_of(a), string_of(b))),
            s.split_once(':').map(|(a, b)| (a.to_string(), b.to_string()))
        );
        assert_eq!(
            tail_after(&cs, '.').map(string_of),
            s.rsplit_once('.').map(|(_, b)| b.to_string())
        );
        for t in SAMPLES {
            assert_eq!(has(s, t), s.contains(t));
            assert_eq!(begins_with(s, t), s.starts_with(t));
            assert_eq!(finishes_with(s, t), s.ends_with(t));
            assert_eq!(same_ignoring_case(s, t), s.eq_ignore_ascii_case(t));
            assert_eq!(before(&cs, &chars_of(t)), s < t);
            assert_eq!(
                without_prefix(&cs, &chars_of(t)).map(string_of),
                s.strip_prefix(t).map(|r| r.to_string())
            );
            assert_eq!(
                without_suffix(&cs, &chars_of(t)).map(string_of),
                s.strip_suffix(t).map(|r| r.to_string())
            );
        }
    }
    assert_eq!(last_index_of(&chars_of("a.b.c"), '.'), Some(3));
    assert_eq!(join_texts(&vec!["a".into(), "b".into(), "c".into()], ", "), "a, b, c");
    assert_eq!(cat5("a", "b", "c", "d", "e"), "abcde");
}

#[test]
fn numbers_are_written_as_std_writes_them() {
    for n in [0u64, 9, 10, 99, 100, 25565, u64::MAX] {
        assert_eq!(decimal_of(n), n.to_string());
        assert_eq!(read_up_to(&chars_of(&n.to_string()), u64::MAX), Some(n));
    }
    for n in [0i32, 7, -1, i32::MAX, i32::MIN] {
        assert_eq!(signed_decimal_of(n), n.to_string());
        assert_eq!(read_signed(&chars_of(&n.to_string())), Some(n));
    }
    assert_eq!(two_digits_of(5), "05");
    assert_eq!(two_digits_of(12), "12");
}

#[test]
fn numbers_are_read_as_std_reads_them() {
    let samples = [
        "", "+", "-", "0", "+7", "-7", "007", "65535", "65536", "4294967295", "4294967296",
        "18446744073709551615", "18446744073709551616", "-2147483648", "-2147483649",
        "2147483647", "2147483648", " 1", "1 ", "1a", "٣", "++1", "0x1", "99999999999999999999999",
    ];
    for s in samples {
        assert_eq!(read_port(s), s.parse::<u16>().ok(), "{s}");
        assert_eq!(read_up_to(&chars_of(s), u64::MAX), s.parse::<u64>().ok(), "{s}");
        assert_eq!(read_up_to(&chars_of(s), 0xffff_ffff), s.parse::<u32>().ok().map(u64::from), "{s}");
        assert_eq!(read_signed(&chars_of(s)), s.parse::<i32>().ok(), "{s}");
    }
    for s in ["", "63DD", "ffff", "10000", "+a", "g", "00000FfF", "-1"] {
        assert_eq!(read_hex16(&chars_of(s)), u16::from_str_radix(s, 16).ok(), "{s}");
    }
    assert_eq!(hex_digit('b'), Some(11));
    assert_eq!(hex_digit('g'), None);
}

#[test]
fn percent_encoding() {
    assert_eq!(url_encode("mc 1.21/ç~"), "mc%201.21%2F%C3%A7~");
    assert_eq!(percent_encode_path("a+b&c"), "a%2Bb%26c");
    assert_eq!(url_decode("a%20b+c"), "a b c");
    assert_eq!(url_decode("100%"), "100%");
    assert_eq!(url_decode("%zz%4"), "%zz%4");
    assert_eq!(url_decode("%+F"), "\u{f}");
    assert_eq!(url_decode("%C3%A7"), "ç");
    assert_eq!(url_decode("%FF"), "\u{fffd}");
}

#[test]
fn decoding_undoes_encoding() {
    for s in SAMPLES {
        assert_eq!(url_decode(&url_encode(s)), s);
        assert_eq!(query_param(&format!("code={}", url_encode(s)), "code"), Some(s.to_string()));
        let query = format!("first=1&state={}&last", url_encode(s));
        assert_eq!(query_param(&query, "state"), Some(s.to_string()));
    }
    assert_eq!(query_param("a=1&a=2", "a"), Some("1".to_string()));
    assert_eq!(query_param("a=b=c", "a"), Some("b=c".to_string()));
    assert_eq!(query_param("code", "code"), None);
    assert_eq!(query_param("", ""), None);
}

#[test]
fn sorting_is_stable() {
    let keys: Vec<Vec<char>> = ["b", "a", "b", "", "ab"].iter().map(|s| s.chars().collect()).collect();
    assert_eq!(sorted_order(&keys, false), vec![3, 1, 4, 0, 2]);
    assert_eq!(sorted_order(&keys, true), vec![0, 2, 4, 1, 3]);
}
