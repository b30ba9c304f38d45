//! Where a server is reached: its port, its addresses, its name.
use vstd::prelude::*;
use vstd::utf8::encode_utf8;

use crate::numbers::{
    all_digits, decimal, decimal_of, law_decimal_read_back, number, parse_up_to, read_port, read_up_to,
};
use crate::text::{
    alphanumeric, cat3, chars_of, digit, has_char, is_alphanumeric, is_digit, is_empty, lower, pieces,
    same, split, split_on, string_of, strip_end, stripped_end, to_lower, trim, trim_text, trimmed,
};

verus! {

// ---------------------------------------------------------------------------------------------
// Ports
// ---------------------------------------------------------------------------------------------
/// The port that `raw` says; where it says none, 25565.
pub open spec fn valid_port_text(raw: Seq<char>) -> Seq<char> {
    match parse_up_to(trim(raw), 0xffff) {
        Some(n) => if n > 0 {
            decimal(n)
        } else {
            "25565"@
        },
        None => "25565"@,
    }
}

/// The port that `raw` says; where it says none, 25565.
pub fn valid_port(raw: &str) -> (r: String)
    ensures
        r@ == valid_port_text(raw@),
{
    let t = trim_text(raw);
    match read_port(t.as_str()) {
        Some(n) => if n > 0 {
            decimal_of(n as u64)
        } else {
            "25565".to_owned()
        },
        None => "25565".to_owned(),
    }
}

/// The port number that `raw` says, where it says one.
pub fn port_number(raw: &str) -> (r: Option<u16>)
    ensures
        match r {
            Some(n) => parse_up_to(trim(raw@), 0xffff) == Some(n as nat),
            None => parse_up_to(trim(raw@), 0xffff) is None,
        },
{
    read_port(trim_text(raw).as_str())
}

/// A valid port is a port, and is valid as it is.
pub proof fn law_valid_port(raw: Seq<char>)
    ensures
        match parse_up_to(valid_port_text(raw), 0xffff) {
            Some(n) => 0 < n,
            None => false,
        },
        valid_port_text(valid_port_text(raw)) == valid_port_text(raw),
{
    reveal_strlit("25565");
    let t = valid_port_text(raw);
    let n: nat = match parse_up_to(trim(raw), 0xffff) {
        Some(n) => if n > 0 {
            n
        } else {
            25565
        },
        None => 25565,
    };
    reveal_with_fuel(decimal, 6);
    assert("25565"@ == decimal(25565));
    assert(t == decimal(n));
    law_decimal_read_back(n, 0xffff);
    crate::numbers::lemma_decimal(n);
    assert(is_digit(t[0]));
    assert(is_digit(t[t.len() - 1]));
    assert(trim(t) == t);
}

// ---------------------------------------------------------------------------------------------
// IPv4 addresses
// ---------------------------------------------------------------------------------------------
/// Whether `s` is one of the four numbers of an IPv4 address: up to three digits, no zero before
/// others, at most 255.
pub open spec fn is_octet(s: Seq<char>) -> bool {
    &&& 1 <= s.len() <= 3
    &&& all_digits(s)
    &&& (s.len() > 1 ==> s[0] != '0')
    &&& number(s) <= 255
}

/// The four numbers of the IPv4 address `s`.
pub open spec fn ipv4(s: Seq<char>) -> Option<Seq<nat>> {
    let parts = split(s, seq!['.']);
    if parts.len() == 4 && forall|i: int| 0 <= i < 4 ==> is_octet(#[trigger] parts[i]) {
        Some(seq![number(parts[0]), number(parts[1]), number(parts[2]), number(parts[3])])
    } else {
        None
    }
}

/// One of the four numbers of an IPv4 address.
fn octet(cs: &Vec<char>) -> (r: Option<u8>)
    ensures
        match r {
            Some(n) => is_octet(cs@) && number(cs@) == n,
            None => !is_octet(cs@),
        },
{
    let n: usize = cs.len();
    if n == 0 || n > 3 || (n > 1 && cs[0] == '0') {
        return None;
    }
    if !digit(cs[0]) {
        return None;
    }
    assert(crate::numbers::unsigned_part(cs@) == cs@);
    match read_up_to(cs, 255) {
        Some(v) => Some(v as u8),
        None => None,
    }
}

/// The four numbers of an IPv4 address.
pub fn read_ipv4(s: &str) -> (r: Option<(u8, u8, u8, u8)>)
    ensures
        match r {
            Some((a, b, c, d)) => ipv4(s@) == Some(seq![a as nat, b as nat, c as nat, d as nat]),
            None => ipv4(s@) is None,
        },
{
    let cs = chars_of(s);
    let dot: Vec<char> = vec!['.'];
    assert(dot@ == seq!['.']);
    let parts = split_on(&cs, &dot);
    let ghost all = pieces(parts@);
    if parts.len() != 4 {
        return None;
    }
    assert(all[0] == parts@[0]@ && all[1] == parts@[1]@ && all[2] == parts@[2]@ && all[3]
        == parts@[3]@);
    match (octet(&parts[0]), octet(&parts[1]), octet(&parts[2]), octet(&parts[3])) {
        (Some(a), Some(b), Some(c), Some(d)) => Some((a, b, c, d)),
        _ => None,
    }
}

/// Whether `ip` is an address that many customers of a provider share: 100.64.0.0/10.
pub open spec fn shared(ip: Seq<char>) -> bool {
    match ipv4(ip) {
        Some(o) => o[0] == 100 && 64 <= o[1] < 128,
        None => false,
    }
}

/// Whether `ip` is an address that many customers of a provider share.
pub fn is_cgnat(ip: &str) -> (r: bool)
    ensures
        r == shared(ip@),
{
    match read_ipv4(ip) {
        Some((a, b, _c, _d)) => a == 100 && 64 <= b && b < 128,
        None => false,
    }
}

/// The address in the answer of a service that says it: trimmed, and an IPv4 address.
pub fn public_ip(answer: &str) -> (r: Option<String>)
    ensures
        match r {
            Some(ip) => ip@ == trim(answer@) && ipv4(trim(answer@)) is Some,
            None => ipv4(trim(answer@)) is None,
        },
{
    let t = trim_text(answer);
    match read_ipv4(t.as_str()) {
        Some(_) => Some(t),
        None => None,
    }
}

// ---------------------------------------------------------------------------------------------
// Host names
// ---------------------------------------------------------------------------------------------
/// Why a host name is refused.
#[derive(Clone, Copy, Debug, PartialEq, Eq, Structural)]
pub enum HostError {
    /// It is too short or too long, or has no dot.
    Shape,
    /// One of its labels is empty, too long, begins or ends in a hyphen, or holds something else
    /// than letters, digits and hyphens.
    Label,
}

impl HostError {
    /// What the panel says.
    pub open spec fn text(self) -> Seq<char> {
        match self {
            HostError::Shape => "Alan adı geçersiz. Örnek: mc.duckdns.org"@,
            HostError::Label => "Alan adında sadece harf, rakam ve tire olabilir."@,
        }
    }

    /// What the panel says.
    pub fn message(self) -> (r: String)
        ensures
            r@ == self.text(),
    {
        match self {
            HostError::Shape => "Alan adı geçersiz. Örnek: mc.duckdns.org".to_owned(),
            HostError::Label => "Alan adında sadece harf, rakam ve tire olabilir.".to_owned(),
        }
    }
}

/// `raw` without white space around it and dots after it, in small letters.
pub open spec fn host_form(raw: Seq<char>) -> Seq<char> {
    lower(strip_end(trim(raw), seq!['.']))
}

/// Whether `c` may stand in a label.
pub open spec fn is_label_char(c: char) -> bool {
    is_alphanumeric(c) || c == '-'
}

/// Whether `s` is a label of a host name.
pub open spec fn is_label(s: Seq<char>) -> bool {
    &&& 0 < s.len() <= 63
    &&& s.first() != '-'
    &&& s.last() != '-'
    &&& forall|i: int| 0 <= i < s.len() ==> is_label_char(#[trigger] s[i])
}

/// What is wrong with the host name `host`.
pub open spec fn host_fault(host: Seq<char>) -> Option<HostError> {
    let len = encode_utf8(host).len();
    let labels = split(host, seq!['.']);
    if len < 4 || len > 253 || !host.contains('.') {
        Some(HostError::Shape)
    } else if exists|i: int| 0 <= i < labels.len() && !is_label(#[trigger] labels[i]) {
        Some(HostError::Label)
    } else {
        None
    }
}

/// Whether `cs` is a label of a host name. A label of other than ASCII characters is none,
/// whatever its length in bytes.
fn label_ok(cs: &Vec<char>) -> (r: bool)
    ensures
        r == is_label(cs@),
{
    let n: usize = cs.len();
    if n == 0 || n > 63 || cs[0] == '-' || cs[n - 1] == '-' {
        return false;
    }
    for i in 0..n
        invariant
            n == cs@.len(),
            forall|j: int| 0 <= j < i ==> is_label_char(#[trigger] cs@[j]),
    {
        if !(alphanumeric(cs[i]) || cs[i] == '-') {
            return false;
        }
    }
    true
}

/// The host name that `raw` says, in small letters, or what is wrong with it.
pub fn valid_hostname(raw: &str) -> (r: Result<String, HostError>)
    ensures
        match r {
            Ok(h) => h@ == host_form(raw@) && host_fault(host_form(raw@)) is None,
            Err(e) => host_fault(host_form(raw@)) == Some(e),
        },
{
    let cs = chars_of(raw);
    let dot: Vec<char> = vec!['.'];
    assert(dot@ == seq!['.']);
    let host = to_lower(stripped_end(trimmed(&cs), &dot));
    let text = string_of(&host);
    let n: usize = text.as_str().as_bytes().len();
    if n < 4 || n > 253 || !has_char(&host, '.') {
        return Err(HostError::Shape);
    }
    let labels = split_on(&host, &dot);
    let m: usize = labels.len();
    let ghost all = pieces(labels@);
    for i in 0..m
        invariant
            m == labels@.len(),
            all == pieces(labels@),
            all == split(host_form(raw@), seq!['.']),
            host_fault(host_form(raw@)) != Some(HostError::Shape),
            encode_utf8(host_form(raw@)).len() >= 4,
            encode_utf8(host_form(raw@)).len() <= 253,
            host_form(raw@).contains('.'),
            forall|j: int| 0 <= j < i ==> is_label(#[trigger] all[j]),
    {
        assert(all[i as int] == labels@[i as int]@);
        if !label_ok(&labels[i]) {
            assert(!is_label(all[i as int]));
            return Err(HostError::Label);
        }
    }
    Ok(text)
}

/// The name under which players join, as it is kept: what was typed, trimmed. It may be left
/// empty; else it has to be a host name.
pub fn join_host(typed: &str) -> (r: Result<String, String>)
    ensures
        ({
            let host = trim(typed@);
            let ok = host.len() == 0 || host_fault(host_form(host)) is None;
            match r {
                Ok(h) => ok && h@ == host,
                Err(e) => !ok && e@ == HostError::Shape.text(),
            }
        }),
{
    let host = trim_text(typed);
    if !is_empty(host.as_str()) {
        match valid_hostname(host.as_str()) {
            Ok(_) => {},
            Err(_) => {
                return Err(HostError::Shape.message());
            },
        }
    }
    Ok(host)
}

// ---------------------------------------------------------------------------------------------
// What the panel shows
// ---------------------------------------------------------------------------------------------
/// What the panel shows of a server's addresses.
pub struct JoinInfo {
    pub port: String,
    pub lan: String,
    pub wan: String,
    pub play: String,
    pub warn: String,
}

/// The address in the local network.
pub open spec fn lan_shown(lan: Seq<char>, port: Seq<char>) -> Seq<char> {
    if lan.len() == 0 {
        "127.0.0.1"@ + ":"@ + port
    } else {
        lan + ":"@ + port
    }
}

/// The public address: where it is not known, that it could not be had, or that it is being
/// looked up.
pub open spec fn wan_shown(
    known: Option<Seq<char>>,
    tried: bool,
    turkish: bool,
    port: Seq<char>,
) -> Seq<char> {
    match known {
        Some(ip) => ip + ":"@ + port,
        None => if !tried {
            "…"@
        } else if turkish {
            "alınamadı"@
        } else {
            "unavailable"@
        },
    }
}

/// The warning for a shared public address.
pub open spec fn warning(known: Option<Seq<char>>, turkish: bool) -> Seq<char> {
    match known {
        Some(ip) => if !shared(ip) {
            Seq::empty()
        } else if turkish {
            "Bu dış IP CGNAT aralığında (100.64). Port yönlendirme çalışmaz."@
        } else {
            "This public IP is in the CGNAT range (100.64). Port forwarding will not work."@
        },
        None => Seq::empty(),
    }
}

/// The characters of a text that may be missing.
pub open spec fn chars_in(s: Option<String>) -> Option<Seq<char>> {
    match s {
        Some(t) => Some(t@),
        None => None,
    }
}

/// What the panel shows of a server's addresses: `lan` is the address in the local network,
/// `known` the public one, `tried` whether that was looked up, `host` the name that players
/// type in.
pub fn apply_join(
    port: &str,
    lan: &str,
    known: &Option<String>,
    tried: bool,
    host: &str,
    turkish: bool,
) -> (r: JoinInfo)
    ensures
        r.port@ == valid_port_text(port@),
        r.lan@ == lan_shown(lan@, valid_port_text(port@)),
        r.wan@ == wan_shown(chars_in(*known), tried, turkish, valid_port_text(port@)),
        r.play@ == trim(host@),
        r.warn@ == warning(chars_in(*known), turkish),
{
    let port = valid_port(port);
    let lan = if is_empty(lan) {
        cat3("127.0.0.1", ":", port.as_str())
    } else {
        cat3(lan, ":", port.as_str())
    };
    let wan = match known {
        Some(ip) => cat3(ip.as_str(), ":", port.as_str()),
        None => if !tried {
            "…".to_owned()
        } else if turkish {
            "alınamadı".to_owned()
        } else {
            "unavailable".to_owned()
        },
    };
    let warn = match known {
        Some(ip) => if !is_cgnat(ip.as_str()) {
            String::new()
        } else if turkish {
            "Bu dış IP CGNAT aralığında (100.64). Port yönlendirme çalışmaz.".to_owned()
        } else {
            "This public IP is in the CGNAT range (100.64). Port forwarding will not work.".to_owned()
        },
        None => String::new(),
    };
    JoinInfo { port, lan, wan, play: trim_text(host), warn }
}

/// Whether there is something to copy: no address that is still missing.
pub fn worth_copying(text: &str) -> (r: bool)
    ensures
        r == (text@.len() > 0 && text@ != "…"@ && text@ != "alınamadı"@ && text@ != "unavailable"@),
{
    !is_empty(text) && !same(text, "…") && !same(text, "alınamadı") && !same(text, "unavailable")
}

/// Whether an address may be handed to the browser.
pub fn may_open(url: &str) -> (r: bool)
    ensures
        r == (url@.len() > 0 && !url@.contains('"') && !url@.contains(' ')),
{
    let cs = chars_of(url);
    !is_empty(url) && !has_char(&cs, '"') && !has_char(&cs, ' ')
}

// ---------------------------------------------------------------------------------------------
// Laws
// ---------------------------------------------------------------------------------------------
/// A port from 1 to 65535 is taken as it is typed in, with or without white space around it; what is
/// no such port counts as 25565.
pub proof fn law_ports(a: Seq<char>, n: nat, b: Seq<char>, raw: Seq<char>)
    requires
        forall|i: int| 0 <= i < a.len() ==> crate::text::is_white(#[trigger] a[i]),
        forall|i: int| 0 <= i < b.len() ==> crate::text::is_white(#[trigger] b[i]),
    ensures
        1 <= n <= 65_535 ==> valid_port_text(a + decimal(n) + b) == decimal(n),
        n == 0 || n > 65_535 ==> valid_port_text(a + decimal(n) + b) == seq!['2', '5', '5', '6', '5'],
        parse_up_to(trim(raw), 65_535) is None ==> valid_port_text(raw) == seq!['2', '5', '5', '6', '5'],
{
    reveal_strlit("25565");
    assert("25565"@ =~= seq!['2', '5', '5', '6', '5']);
    crate::numbers::lemma_decimal(n);
    let d = decimal(n);
    assert(is_digit(d[0]) && is_digit(d[d.len() - 1]));
    crate::text::law_trim(a, d, b);
    if n <= 65_535 {
        law_decimal_read_back(n, 0xffff);
    } else {
        assert(crate::numbers::unsigned_part(d) == d);
    }
}

/// One of the four numbers of an address is written as decimal, and is at most 255.
proof fn lemma_octets(s: Seq<char>, n: nat)
    ensures
        n <= 255 ==> is_octet(decimal(n)),
        is_octet(s) ==> s == decimal(number(s)) && number(s) <= 255,
{
    crate::numbers::lemma_decimal(n);
    if n <= 255 {
        crate::numbers::law_decimal(n, 0);
        reveal_with_fuel(decimal, 4);
        assert(decimal(n).len() <= 3);
        if n == 0 {
            assert(decimal(n).len() == 1);
        } else {
            assert(decimal(n)[0] as u32 != 48);
        }
    }
    if is_octet(s) {
        lemma_without_zero(s);
    }
}

/// Digits that do not begin with a zero, and a single digit, are the decimal form of their number.
proof fn lemma_without_zero(s: Seq<char>)
    requires
        s.len() > 0,
        all_digits(s),
        s.len() > 1 ==> s[0] != '0',
    ensures
        s == decimal(number(s)),
        s[0] != '0' ==> number(s) > 0,
    decreases s.len(),
{
    let init = s.drop_last();
    let c = s.last();
    assert(is_digit(s[0]) && is_digit(s[s.len() - 1]));
    if s.len() == 1 {
        assert(init == Seq::<char>::empty());
        assert(number(init) == 0);
        assert(number(s) == crate::numbers::digit_value(c));
        assert(s =~= seq![crate::numbers::digit_char(number(s))]);
    } else {
        assert forall|i: int| 0 <= i < init.len() implies is_digit(#[trigger] init[i]) by {
            assert(is_digit(s[i]));
        }
        assert(init[0] == s[0]);
        lemma_without_zero(init);
        let n = number(init);
        let d = crate::numbers::digit_value(c);
        assert(number(s) == n * 10 + d);
        assert(n > 0 && d < 10);
        assert((n * 10 + d) / 10 == n && (n * 10 + d) % 10 == d);
        assert(s =~= init.push(c));
    }
}

/// An IPv4 address is four numbers up to 255 in decimal with dots between them, and nothing else is
/// one.
pub proof fn law_ipv4(a: nat, b: nat, c: nat, d: nat, s: Seq<char>)
    ensures
        a <= 255 && b <= 255 && c <= 255 && d <= 255 ==> ipv4(
            decimal(a) + seq!['.'] + decimal(b) + seq!['.'] + decimal(c) + seq!['.'] + decimal(d),
        ) == Some(seq![a, b, c, d]),
        ipv4(s) is Some ==> ipv4(s)->0.len() == 4 && ipv4(s)->0[0] <= 255 && ipv4(s)->0[1] <= 255
            && ipv4(s)->0[2] <= 255 && ipv4(s)->0[3] <= 255 && s == decimal(ipv4(s)->0[0]) + seq!['.']
            + decimal(ipv4(s)->0[1]) + seq!['.'] + decimal(ipv4(s)->0[2]) + seq!['.'] + decimal(
            ipv4(s)->0[3],
        ),
{
    let seps = seq!['.'];
    assert(seps[0] == '.');
    let wa = decimal(a);
    let wb = decimal(b);
    let wc = decimal(c);
    let wd = decimal(d);
    lemma_no_dot(a);
    lemma_no_dot(b);
    lemma_no_dot(c);
    lemma_no_dot(d);
    let cd = wc + seq!['.'] + wd;
    let bcd = wb + seq!['.'] + cd;
    let all = wa + seq!['.'] + bcd;
    crate::text::lemma_split_append(wc, '.', wd, seps);
    assert(wc.push('.') + wd == cd);
    crate::text::lemma_split_append(wb, '.', cd, seps);
    assert(wb.push('.') + cd == bcd);
    crate::text::lemma_split_append(wa, '.', bcd, seps);
    assert(wa.push('.') + bcd == all);
    assert(seq![wa] + (seq![wb] + (seq![wc] + seq![wd])) =~= seq![wa, wb, wc, wd]);
    assert(wa + seq!['.'] + wb + seq!['.'] + wc + seq!['.'] + wd =~= all);
    lemma_octets(s, a);
    lemma_octets(s, b);
    lemma_octets(s, c);
    lemma_octets(s, d);
    crate::numbers::lemma_decimal(a);
    crate::numbers::lemma_decimal(b);
    crate::numbers::lemma_decimal(c);
    crate::numbers::lemma_decimal(d);
    if ipv4(s) is Some {
        let p = split(s, seps);
        crate::text::law_pieces_make_the_text(s, '.');
        assert(is_octet(p[0]) && is_octet(p[1]) && is_octet(p[2]) && is_octet(p[3]));
        lemma_octets(p[0], 0);
        lemma_octets(p[1], 0);
        lemma_octets(p[2], 0);
        lemma_octets(p[3], 0);
        assert(p =~= seq![p[0], p[1], p[2]].push(p[3]));
        assert(p.drop_last() =~= seq![p[0], p[1], p[2]]);
        assert(seq![p[0], p[1], p[2]].drop_last() =~= seq![p[0], p[1]]);
        assert(seq![p[0], p[1]].drop_last() =~= seq![p[0]]);
        assert(crate::text::join(seq![p[0]], seps) == p[0]);
        assert(crate::text::join(seq![p[0], p[1]], seps) == p[0] + seps + p[1]);
        assert(crate::text::join(seq![p[0], p[1], p[2]], seps) == p[0] + seps + p[1] + seps + p[2]);
        assert(crate::text::join(p, seps) == p[0] + seps + p[1] + seps + p[2] + seps + p[3]);
    }
}

proof fn lemma_no_dot(n: nat)
    ensures
        split(decimal(n), seq!['.']) == seq![decimal(n)],
{
    crate::numbers::lemma_decimal(n);
    let d = decimal(n);
    let seps = seq!['.'];
    assert(seps[0] == '.');
    assert forall|i: int| 0 <= i < d.len() implies !seps.contains(#[trigger] d[i]) by {
        assert(is_digit(d[i]));
    }
    crate::text::lemma_split_whole(d, seps);
}

/// The addresses that providers share among customers are those from 100.64 to 100.127.
pub proof fn law_shared_addresses(s: Seq<char>)
    ensures
        shared(s) <==> ipv4(s) is Some && ipv4(s)->0[0] == 100 && ipv4(s)->0[1] >= 64 && ipv4(s)->0[1]
            <= 127,
{
}

/// A host name is in small letters, without white space around it and dots after it. It has at least
/// one dot, 4 to 253 bytes, and between its dots 1 to 63 letters, digits and hyphens, where no hyphen
/// comes first or last.
pub proof fn law_host_names(host: Seq<char>, i: int)
    requires
        host_fault(host) is None,
    ensures
        host.contains('.'),
        4 <= encode_utf8(host).len() <= 253,
        0 <= i < split(host, seq!['.']).len() ==> {
            let label = split(host, seq!['.'])[i];
            &&& 1 <= label.len() <= 63
            &&& label[0] != '-'
            &&& label[label.len() - 1] != '-'
            &&& forall|j: int|
                0 <= j < label.len() ==> {
                    let c = #[trigger] label[j];
                    'a' <= c <= 'z' || 'A' <= c <= 'Z' || '0' <= c <= '9' || c == '-'
                }
        },
{
    let labels = split(host, seq!['.']);
    if 0 <= i < labels.len() {
        let label = labels[i];
        assert(is_label(label));
        assert forall|j: int| 0 <= j < label.len() implies {
            let c = #[trigger] label[j];
            'a' <= c <= 'z' || 'A' <= c <= 'Z' || '0' <= c <= '9' || c == '-'
        } by {
            assert(is_label_char(label[j]));
        }
    }
}

/// Every name of that kind is accepted, and what is wrong with another is said: that it has no dot or
/// is too short or too long, or else that a part of it is none.
pub proof fn law_what_is_wrong_with_a_host_name(host: Seq<char>)
    ensures
        host_fault(host) == Some(HostError::Shape) <==> !host.contains('.') || encode_utf8(host).len()
            < 4 || encode_utf8(host).len() > 253,
        (forall|i: int|
            0 <= i < split(host, seq!['.']).len() ==> {
                let label = #[trigger] split(host, seq!['.'])[i];
                &&& 1 <= label.len() <= 63
                &&& label[0] != '-'
                &&& label[label.len() - 1] != '-'
                &&& forall|j: int|
                    0 <= j < label.len() ==> {
                        let c = #[trigger] label[j];
                        'a' <= c <= 'z' || 'A' <= c <= 'Z' || '0' <= c <= '9' || c == '-'
                    }
            }) ==> host_fault(host) != Some(HostError::Label),
{
    let labels = split(host, seq!['.']);
    if host_fault(host) == Some(HostError::Label) {
        let i = choose|i: int| 0 <= i < labels.len() && !is_label(#[trigger] labels[i]);
        let label = labels[i];
        if 1 <= label.len() <= 63 && label[0] != '-' && label[label.len() - 1] != '-' && forall|j: int|
            0 <= j < label.len() ==> {
                let c = #[trigger] label[j];
                'a' <= c <= 'z' || 'A' <= c <= 'Z' || '0' <= c <= '9' || c == '-'
            } {
            assert forall|j: int| 0 <= j < label.len() implies is_label_char(#[trigger] label[j]) by {
                let c = label[j];
            }
            assert(is_label(label));
        }
    }
}

/// White space around a host name, dots after it and capitals in it do not matter.
pub proof fn law_form_of_a_host_name(a: Seq<char>, host: Seq<char>, dots: Seq<char>, b: Seq<char>)
    requires
        forall|i: int| 0 <= i < a.len() ==> crate::text::is_white(#[trigger] a[i]),
        forall|i: int| 0 <= i < b.len() ==> crate::text::is_white(#[trigger] b[i]),
        forall|i: int| 0 <= i < dots.len() ==> #[trigger] dots[i] == '.',
        host.len() > 0,
        !crate::text::is_white(host.first()),
        !crate::text::is_white(host.last()),
        host.last() != '.',
    ensures
        host_form(a + host + dots + b) == lower(host),
{
    let set = seq!['.'];
    assert(set[0] == '.');
    let body = host + dots;
    assert(body.first() == host.first());
    if dots.len() > 0 {
        assert(body.last() == dots[dots.len() - 1]);
    } else {
        assert(body == host);
    }
    crate::text::law_trim(a, body, b);
    assert(a + host + dots + b == a + body + b);
    assert forall|i: int| 0 <= i < dots.len() implies set.contains(#[trigger] dots[i]) by {
        assert(set.contains(set[0]));
    }
    let none = Seq::<char>::empty();
    crate::text::law_strip(none, host, dots, set);
    assert(!set.contains(host.last()));
}

/// An address is shown with the port after it; the local one is that of the machine itself where no
/// other is known. A public one that is shared is warned of, and no other.
pub proof fn law_what_is_shown(
    lan: Seq<char>,
    ip: Seq<char>,
    tried: bool,
    turkish: bool,
    port: Seq<char>,
)
    ensures
        lan.len() > 0 ==> lan_shown(lan, port) == lan + seq![':'] + port,
        lan.len() == 0 ==> lan_shown(lan, port) == "127.0.0.1"@ + seq![':'] + port,
        wan_shown(Some(ip), tried, turkish, port) == ip + seq![':'] + port,
        wan_shown(None, false, turkish, port) == "…"@,
        wan_shown(None, true, true, port) == "alınamadı"@,
        wan_shown(None, true, false, port) == "unavailable"@,
        warning(None, turkish).len() == 0,
        !shared(ip) ==> warning(Some(ip), turkish).len() == 0,
        shared(ip) ==> warning(Some(ip), turkish).len() > 0,
{
    reveal_strlit(":");
    assert(":"@ =~= seq![':']);
    reveal_strlit("Bu dış IP CGNAT aralığında (100.64). Port yönlendirme çalışmaz.");
    reveal_strlit("This public IP is in the CGNAT range (100.64). Port forwarding will not work.");
}

/// A text that may be missing holds its own characters.
pub proof fn law_text_that_may_be_missing(s: Option<String>)
    ensures
        s is Some ==> chars_in(s) == Some(s->0@),
        s is None ==> chars_in(s) is None,
{
}

} // verus!
