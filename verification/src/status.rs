//! The status query of a Minecraft server: its packets and what its reply says.
use vstd::prelude::*;
use vstd::slice::slice_subrange;

use crate::json::{json_parsed, json_views, lemma_json_views, parse_json, Json, JsonV};
use crate::text::{join, join_texts, texts};

verus! {

// ---------------------------------------------------------------------------------------------
// Numbers in packets
// ---------------------------------------------------------------------------------------------
/// The bytes that stand for `n`, seven bits in each, lowest first; all but the last have their
/// highest bit set.
pub open spec fn varint(n: nat) -> Seq<u8>
    decreases n,
{
    if n < 128 {
        seq![n as u8]
    } else {
        seq![(128 + n % 128) as u8] + varint(n / 128)
    }
}

/// The number that the lower seven bits of `bytes` make up.
pub open spec fn varint_sum(bytes: Seq<u8>) -> nat
    decreases bytes.len(),
{
    if bytes.len() == 0 {
        0
    } else {
        (bytes[0] % 128) as nat + 128 * varint_sum(bytes.skip(1))
    }
}

/// How many of `bytes` belong to the number at their start: up to the first one whose highest
/// bit is not set, and no more than `max`.
pub open spec fn varint_span(bytes: Seq<u8>, max: nat) -> nat
    decreases bytes.len(),
{
    if bytes.len() == 0 || max == 0 {
        0
    } else if bytes[0] < 128 {
        1
    } else {
        1 + varint_span(bytes.skip(1), (max - 1) as nat)
    }
}

/// The 32-bit number with a sign that has the same lower 32 bits as `n`.
pub open spec fn wrapped(n: int) -> int {
    let m = n % 0x1_0000_0000;
    if m >= 0x8000_0000 {
        m - 0x1_0000_0000
    } else {
        m
    }
}

/// What the start of a packet says.
#[derive(Clone, Copy, Debug, PartialEq, Eq, Structural)]
pub enum VarintRead {
    /// A number, and how many bytes it takes.
    Value { value: i32, used: usize },
    /// More bytes are needed.
    Incomplete,
    /// The number does not end within five bytes.
    TooLong,
}

/// What [`read_varint`] says of `bytes`.
pub open spec fn varint_read(bytes: Seq<u8>) -> VarintRead {
    let k = varint_span(bytes, 5);
    if k > 0 && bytes[k - 1] < 128 {
        VarintRead::Value { value: wrapped(varint_sum(bytes.take(k as int)) as int) as i32, used: k as usize }
    } else if bytes.len() >= 5 {
        VarintRead::TooLong
    } else {
        VarintRead::Incomplete
    }
}

/// Appends the bytes that stand for `value`.
pub fn write_varint(out: &mut Vec<u8>, value: i32)
    requires
        value >= 0,
    ensures
        final(out)@ == old(out)@ + varint(value as nat),
{
    let mut v: u32 = value as u32;
    let ghost start = out@;
    while v >= 128
        invariant
            start + varint(value as nat) == out@ + varint(v as nat),
        decreases v,
    {
        let b: u8 = (128 + v % 128) as u8;
        let ghost o0 = out@;
        out.push(b);
        assert(o0 + (seq![b] + varint((v / 128) as nat)) == out@ + varint((v / 128) as nat));
        v = v / 128;
    }
    out.push(v as u8);
}

/// A span stays within the bytes and the limit, and all but its last byte have their highest
/// bit set.
proof fn lemma_span(bytes: Seq<u8>, max: nat)
    ensures
        varint_span(bytes, max) <= bytes.len(),
        varint_span(bytes, max) <= max,
        bytes.len() > 0 && max > 0 ==> varint_span(bytes, max) > 0,
    decreases bytes.len(),
{
    if bytes.len() > 0 && max > 0 && bytes[0] >= 128 {
        lemma_span(bytes.skip(1), (max - 1) as nat);
    }
}

/// How many bytes from `start` on belong to the number there.
fn span_of(bytes: &[u8], start: usize, max: usize) -> (r: usize)
    requires
        start <= bytes@.len(),
    ensures
        r == varint_span(bytes@.skip(start as int), max as nat),
        r <= bytes@.len() - start,
        r <= max,
{
    let n: usize = bytes.len();
    let mut k: usize = 0;
    let ghost rest = bytes@.skip(start as int);
    proof {
        assert(rest.skip(0) == rest);
        lemma_span(rest, max as nat);
    }
    while k < max && k < n - start
        invariant
            n == bytes@.len(),
            start <= n,
            k <= max,
            k <= n - start,
            rest == bytes@.skip(start as int),
            varint_span(rest, max as nat) == k + varint_span(rest.skip(k as int), (max - k) as nat),
        decreases n - start - k,
    {
        assert(rest.skip(k as int)[0] == bytes@[start + k]);
        assert(rest.skip(k as int).skip(1) == rest.skip(k + 1));
        if bytes[start + k] < 128 {
            return k + 1;
        }
        k = k + 1;
    }
    k
}

/// A bound on what `t` bytes of a number make up.
spec fn sum_bound(t: int) -> int {
    if t == 0 {
        1
    } else if t == 1 {
        128
    } else if t == 2 {
        16_384
    } else if t == 3 {
        2_097_152
    } else if t == 4 {
        268_435_456
    } else {
        34_359_738_368
    }
}

/// The number that the lower seven bits of at most five bytes make up.
fn sum_of(bytes: &[u8]) -> (r: u64)
    requires
        bytes@.len() <= 5,
    ensures
        r == varint_sum(bytes@),
{
    let n: usize = bytes.len();
    let mut i: usize = n;
    let mut v: u64 = 0;
    assert(bytes@.skip(n as int) == Seq::<u8>::empty());
    while i > 0
        invariant
            i <= n,
            n == bytes@.len(),
            n <= 5,
            v == varint_sum(bytes@.skip(i as int)),
            v < sum_bound(n - i),
        decreases i,
    {
        i = i - 1;
        assert(bytes@.skip(i as int).skip(1) == bytes@.skip(i + 1));
        v = (bytes[i] % 128) as u64 + 128 * v;
    }
    assert(bytes@.skip(0) == bytes@);
    v
}

/// The 32-bit number with a sign that has the same lower 32 bits as `v`.
fn wrap(v: i64) -> (r: i32)
    ensures
        r == wrapped(v as int),
{
    let w: i128 = v as i128 + 9_223_372_036_854_775_808;
    let m: i128 = w % 4_294_967_296;
    assert(m == (v as int) % 0x1_0000_0000);
    if m >= 2_147_483_648 {
        (m - 4_294_967_296) as i32
    } else {
        m as i32
    }
}

/// Reads the number at the start of `bytes`.
pub fn read_varint(bytes: &[u8]) -> (r: VarintRead)
    ensures
        r == varint_read(bytes@),
{
    assert(bytes@.skip(0) == bytes@);
    let k: usize = span_of(bytes, 0, 5);
    if k > 0 && bytes[k - 1] < 128 {
        assert(bytes@.subrange(0, k as int) == bytes@.take(k as int));
        let v: u64 = sum_of(slice_subrange(bytes, 0, k));
        proof {
            lemma_sum_small(bytes@.take(k as int));
        }
        VarintRead::Value { value: wrap(v as i64), used: k }
    } else if bytes.len() >= 5 {
        VarintRead::TooLong
    } else {
        VarintRead::Incomplete
    }
}

/// Five bytes make up less than 35 bits.
proof fn lemma_sum_small(bytes: Seq<u8>)
    requires
        bytes.len() <= 5,
    ensures
        varint_sum(bytes) < sum_bound(bytes.len() as int),
    decreases bytes.len(),
{
    if bytes.len() > 0 {
        lemma_sum_small(bytes.skip(1));
    }
}

// ---------------------------------------------------------------------------------------------
// Packets
// ---------------------------------------------------------------------------------------------
/// `localhost`, as bytes.
pub open spec fn localhost() -> Seq<u8> {
    seq![108u8, 111u8, 99u8, 97u8, 108u8, 104u8, 111u8, 115u8, 116u8]
}

/// The handshake that asks a server at `port` for its status: packet 0, protocol 47, the host
/// and the port, next state 1.
pub open spec fn handshake(port: u16) -> Seq<u8> {
    varint(0) + varint(47) + varint(9) + localhost() + seq![(port / 256) as u8, (port % 256) as u8]
        + varint(1)
}

/// The handshake with its length before it, and the request after it.
pub open spec fn request(port: u16) -> Seq<u8> {
    varint(handshake(port).len()) + handshake(port) + seq![1u8, 0u8]
}

/// The bytes that ask a server at `port` for its status.
pub fn status_request(port: u16) -> (r: Vec<u8>)
    ensures
        r@ == request(port),
{
    let mut body: Vec<u8> = Vec::new();
    write_varint(&mut body, 0);
    write_varint(&mut body, 47);
    write_varint(&mut body, 9);
    let host: [u8; 9] = [108u8, 111u8, 99u8, 97u8, 108u8, 104u8, 111u8, 115u8, 116u8];
    assert(host@ == localhost());
    push_bytes(&mut body, &host);
    body.push((port / 256) as u8);
    body.push((port % 256) as u8);
    write_varint(&mut body, 1);
    assert(body@ == handshake(port));
    proof {
        lemma_varint_short(0);
        lemma_varint_short(47);
        lemma_varint_short(9);
        lemma_varint_short(1);
    }
    let mut packet: Vec<u8> = Vec::new();
    let n: usize = body.len();
    write_varint(&mut packet, n as i32);
    push_bytes(&mut packet, &body);
    packet.push(1);
    packet.push(0);
    assert(packet@ == request(port));
    packet
}

/// A number below 128 takes one byte.
proof fn lemma_varint_short(n: nat)
    requires
        n < 128,
    ensures
        varint(n) == seq![n as u8],
{
}

/// Appends `bytes` to `out`.
pub fn push_bytes(out: &mut Vec<u8>, bytes: &[u8])
    ensures
        final(out)@ == old(out)@ + bytes@,
{
    let n: usize = bytes.len();
    for i in 0..n
        invariant
            n == bytes@.len(),
            out@ == old(out)@ + bytes@.take(i as int),
    {
        out.push(bytes[i]);
        assert(bytes@.take(i + 1) == bytes@.take(i as int).push(bytes@[i as int]));
    }
    assert(bytes@.take(n as int) == bytes@);
}

/// Whether a reply may be as long as its first number says.
pub fn reply_length_ok(len: i32) -> (r: bool)
    ensures
        r == (2 <= len <= 1_048_576),
{
    2 <= len && len <= 1_048_576
}

/// The text in a reply: after the packet's number stands the text's length, then the text.
pub open spec fn reply_text(payload: Seq<u8>) -> Option<Seq<u8>> {
    let rest = payload.skip(varint_span(payload, payload.len()) as int);
    let k = varint_span(rest, 5) as int;
    let len = wrapped(varint_sum(rest.take(k)) as int);
    if len < 2 || len > rest.len() - k {
        None
    } else {
        Some(rest.subrange(k, k + len))
    }
}

/// The text in a reply.
pub fn text_of_reply(payload: &[u8]) -> (r: Option<&[u8]>)
    ensures
        match r {
            Some(t) => reply_text(payload@) == Some(t@),
            None => reply_text(payload@) is None,
        },
{
    let n: usize = payload.len();
    assert(payload@.skip(0) == payload@);
    let i: usize = span_of(payload, 0, n);
    let ghost rest = payload@.skip(i as int);
    let k: usize = span_of(payload, i, 5);
    assert(payload@.subrange(i as int, i + k) == rest.take(k as int));
    let v: u64 = sum_of(slice_subrange(payload, i, i + k));
    proof {
        lemma_sum_small(rest.take(k as int));
    }
    let len: i32 = wrap(v as i64);
    if len < 2 {
        return None;
    }
    let len: usize = len as usize;
    if len > n - i - k {
        return None;
    }
    assert(payload@.subrange(i + k, i + k + len) == rest.subrange(k as int, k + len));
    Some(slice_subrange(payload, i + k, i + k + len))
}

// ---------------------------------------------------------------------------------------------
// The reply
// ---------------------------------------------------------------------------------------------
/// Who plays on a server.
pub struct McStatus {
    pub online: i32,
    pub max: i32,
    pub names: String,
}

/// What a status holds.
pub struct StatusV {
    pub online: int,
    pub max: int,
    pub names: Seq<char>,
}

impl View for McStatus {
    type V = StatusV;

    open spec fn view(&self) -> StatusV {
        StatusV { online: self.online as int, max: self.max as int, names: self.names@ }
    }
}

/// The names of those of `players` that have one.
pub open spec fn names_of(players: Seq<JsonV>) -> Seq<Seq<char>>
    decreases players.len(),
{
    if players.len() == 0 {
        Seq::empty()
    } else {
        let before = names_of(players.drop_last());
        match players.last().text("name"@) {
            Some(name) => before.push(name),
            None => before,
        }
    }
}

/// The first eight of `names`, with a comma between them.
pub open spec fn first_names(names: Seq<Seq<char>>) -> Seq<char> {
    join(
        if names.len() > 8 {
            names.take(8)
        } else {
            names
        },
        ", "@,
    )
}

/// The number in the field `key`, as a 32-bit number.
pub open spec fn count_of(players: JsonV, key: Seq<char>) -> Option<int> {
    match players.get(key) {
        Some(v) => match v.as_i64() {
            Some(n) => Some(wrapped(n as int)),
            None => None,
        },
        None => None,
    }
}

/// What a server's status says of its players.
pub open spec fn status_in(json: JsonV) -> Option<StatusV> {
    match json.get("players"@) {
        Some(players) => match (count_of(players, "online"@), count_of(players, "max"@)) {
            (Some(online), Some(max)) => Some(
                StatusV {
                    online,
                    max,
                    names: match players.items("sample"@) {
                        Some(list) => first_names(names_of(list)),
                        None => Seq::empty(),
                    },
                },
            ),
            _ => None,
        },
        None => None,
    }
}

/// The number in the field `key`, as a 32-bit number.
fn count(players: &Json, key: &str) -> (r: Option<i32>)
    ensures
        match r {
            Some(n) => count_of(players@, key@) == Some(n as int),
            None => count_of(players@, key@) is None,
        },
{
    match players.get(key) {
        Some(v) => match v.as_i64() {
            Some(n) => Some(wrap(n)),
            None => None,
        },
        None => None,
    }
}

/// Names are only ever added.
proof fn lemma_names_prefix(players: Seq<JsonV>, i: int)
    requires
        0 <= i <= players.len(),
    ensures
        names_of(players.take(i)).len() <= names_of(players).len(),
        forall|j: int|
            0 <= j < names_of(players.take(i)).len() ==> #[trigger] names_of(players.take(i))[j]
                == names_of(players)[j],
    decreases players.len(),
{
    if i == players.len() {
        assert(players.take(i) == players);
    } else {
        lemma_names_prefix(players.drop_last(), i);
        assert(players.drop_last().take(i) == players.take(i));
    }
}

/// The names of the first eight of `players` that have one, with a comma between them.
fn sample_names(players: &Vec<Json>) -> (r: String)
    ensures
        r@ == first_names(names_of(json_views(players@))),
{
    let mut out: Vec<String> = Vec::new();
    let n: usize = players.len();
    let ghost all = json_views(players@);
    proof {
        lemma_json_views(players@);
        assert(texts(out@) == Seq::<Seq<char>>::empty());
    }
    for i in 0..n
        invariant
            n == players@.len(),
            all == json_views(players@),
            all.len() == n,
            forall|j: int| 0 <= j < n ==> #[trigger] all[j] == players@[j]@,
            texts(out@) == names_of(all.take(i as int)),
            out@.len() <= 8,
    {
        assert(all.take(i + 1).drop_last() == all.take(i as int));
        assert(all.take(i + 1).last() == players@[i as int]@);
        if let Some(name) = players[i].text("name") {
            if out.len() == 8 {
                proof {
                    lemma_names_prefix(all, i + 1);
                    lemma_names_prefix(all, i as int);
                    let names = names_of(all);
                    assert(texts(out@) == names.take(8));
                    assert(names.len() > 8);
                }
                return join_texts(&out, ", ");
            }
            let ghost o0 = out@;
            let ghost n0 = name@;
            out.push(name);
            assert(texts(out@) == texts(o0).push(n0));
        }
    }
    assert(all.take(n as int) == all);
    assert(texts(out@).len() <= 8);
    join_texts(&out, ", ")
}

/// What a server's status says of its players.
pub fn status_of(json: &Json) -> (r: Option<McStatus>)
    ensures
        match r {
            Some(s) => status_in(json@) == Some(s@),
            None => status_in(json@) is None,
        },
{
    let players = match json.get("players") {
        Some(p) => p,
        None => {
            return None;
        },
    };
    let online: i32 = match count(players, "online") {
        Some(n) => n,
        None => {
            return None;
        },
    };
    let max: i32 = match count(players, "max") {
        Some(n) => n,
        None => {
            return None;
        },
    };
    let names = match players.items("sample") {
        Some(list) => sample_names(list),
        None => String::new(),
    };
    Some(McStatus { online, max, names })
}

/// What the reply of a server says of its players.
pub open spec fn status_in_reply(payload: Seq<u8>) -> Option<StatusV> {
    match reply_text(payload) {
        Some(text) => match json_parsed(text) {
            Some(json) => status_in(json),
            None => None,
        },
        None => None,
    }
}

/// What the reply of a server says of its players.
pub fn mc_status(payload: &[u8]) -> (r: Option<McStatus>)
    ensures
        match r {
            Some(s) => status_in_reply(payload@) == Some(s@),
            None => status_in_reply(payload@) is None,
        },
{
    match text_of_reply(payload) {
        Some(text) => match parse_json(text) {
            Some(json) => status_of(&json),
            None => None,
        },
        None => None,
    }
}

// ---------------------------------------------------------------------------------------------
// Laws
// ---------------------------------------------------------------------------------------------
/// The bytes that stand for a number are its span, whatever follows them, and make it up again.
proof fn lemma_varint(n: nat, rest: Seq<u8>, max: nat)
    requires
        max >= varint(n).len(),
    ensures
        varint(n).len() > 0,
        varint(n).last() < 128,
        varint_sum(varint(n)) == n,
        varint_span(varint(n) + rest, max) == varint(n).len(),
    decreases n,
{
    let all = varint(n) + rest;
    if n < 128 {
        assert(varint(n).skip(1) == Seq::<u8>::empty());
        assert(varint_sum(Seq::<u8>::empty()) == 0);
        assert(all[0] == n as u8);
    } else {
        lemma_varint(n / 128, rest, (max - 1) as nat);
        assert(varint(n).skip(1) == varint(n / 128));
        assert(all.skip(1) == varint(n / 128) + rest);
        assert(all[0] == (128 + n % 128) as u8);
        assert(varint(n)[0] % 128 == n % 128);
        assert(varint(n).last() == varint(n / 128).last());
    }
}

/// A number of 31 bits takes at most five bytes.
proof fn lemma_varint_len(n: nat)
    requires
        n < 0x8000_0000,
    ensures
        varint(n).len() <= 5,
{
    reveal_with_fuel(varint, 6);
}

/// A number that was written is read back, whatever follows it.
pub proof fn law_varint_read_back(n: nat, rest: Seq<u8>)
    requires
        n < 0x8000_0000,
    ensures
        varint_read(varint(n) + rest) == (VarintRead::Value {
            value: n as i32,
            used: varint(n).len() as usize,
        }),
{
    lemma_varint_len(n);
    lemma_varint(n, rest, 5);
    let k = varint(n).len() as int;
    assert((varint(n) + rest).take(k) == varint(n));
    assert((varint(n) + rest)[k - 1] == varint(n).last());
}

/// The text of a reply that is framed as servers do it is read back.
pub proof fn law_reply_read_back(id: nat, text: Seq<u8>)
    requires
        2 <= text.len() < 0x8000_0000,
    ensures
        reply_text(varint(id) + varint(text.len()) + text) == Some(text),
{
    let head = varint(id);
    let len = varint(text.len());
    let payload = head + len + text;
    assert(payload == head + (len + text));
    lemma_varint(id, len + text, payload.len());
    let rest = payload.skip(head.len() as int);
    assert(rest == len + text);
    lemma_varint_len(text.len());
    lemma_varint(text.len(), text, 5);
    assert(rest.take(len.len() as int) == len);
    assert(rest.subrange(len.len() as int, len.len() as int + text.len()) == text);
}

/// A number is written seven bits at a time, the lowest first, with 128 added to each byte but the
/// last.
pub proof fn law_bytes_of_a_number(n: nat)
    ensures
        n < 128 ==> varint(n) == seq![n as u8],
        n >= 128 ==> varint(n) == seq![(128 + n % 128) as u8] + varint(n / 128),
        varint_sum(Seq::empty()) == 0,
{
}

/// What is asked of a server: a packet of fifteen bytes, which is number 0, the protocol 47, the nine
/// letters of `localhost`, the port with its higher byte first, and that the status comes next; then a
/// packet of one byte, which is number 0.
pub proof fn law_question(port: u16)
    ensures
        request(port) == seq![
            15u8,
            0u8,
            47u8,
            9u8,
            108u8,
            111u8,
            99u8,
            97u8,
            108u8,
            104u8,
            111u8,
            115u8,
            116u8,
            (port / 256) as u8,
            (port % 256) as u8,
            1u8,
            1u8,
            0u8,
        ],
{
    lemma_varint_short(0);
    lemma_varint_short(47);
    lemma_varint_short(9);
    lemma_varint_short(1);
    lemma_varint_short(15);
    assert(handshake(port).len() == 15);
    assert(request(port) =~= seq![
        15u8,
        0u8,
        47u8,
        9u8,
        108u8,
        111u8,
        99u8,
        97u8,
        108u8,
        104u8,
        111u8,
        115u8,
        116u8,
        (port / 256) as u8,
        (port % 256) as u8,
        1u8,
        1u8,
        0u8,
    ]);
}

/// A number of 32 bits with a sign stays as it is, and a larger one is told apart from it by a
/// multiple of 2 to the 32nd.
pub proof fn law_wrapping(n: int, k: int)
    ensures
        -0x8000_0000 <= wrapped(n) < 0x8000_0000,
        -0x8000_0000 <= n < 0x8000_0000 ==> wrapped(n) == n,
        wrapped(n + k * 0x1_0000_0000) == wrapped(n),
{
    assert((n + k * 0x1_0000_0000) % 0x1_0000_0000 == n % 0x1_0000_0000) by (nonlinear_arith);
}

/// The status of a server says how many play, how many may, and who: the first eight of those whose
/// names are given, in their order, with commas between them. Without both numbers there is none.
pub proof fn law_status(json: JsonV, online: i64, max: i64, list: Seq<JsonV>)
    requires
        -0x8000_0000 <= online < 0x8000_0000,
        -0x8000_0000 <= max < 0x8000_0000,
    ensures
        ({
            let players = json.get("players"@)->0;
            let named = list.filter(|v: JsonV| v.text("name"@) is Some).map_values(
                |v: JsonV| v.text("name"@)->0,
            );
            let counts = json.get("players"@) is Some && players.get("online"@) is Some && players.get(
                "online"@,
            )->0.as_i64() == Some(online) && players.get("max"@) is Some && players.get(
                "max"@,
            )->0.as_i64() == Some(max);
            &&& counts ==> status_in(json) is Some && status_in(json)->0.online == online && status_in(
                json,
            )->0.max == max
            &&& counts && players.items("sample"@) is None ==> status_in(json)->0.names.len() == 0
            &&& counts && players.items("sample"@) == Some(list) && named.len() <= 8 ==> status_in(
                json,
            )->0.names == join(named, seq![',', ' '])
            &&& counts && players.items("sample"@) == Some(list) && named.len() > 8 ==> status_in(
                json,
            )->0.names == join(named.take(8), seq![',', ' '])
            &&& json.get("players"@) is None || players.get("online"@) is None || players.get(
                "max"@,
            ) is None ==> status_in(json) is None
        }),
{
    reveal_strlit(", ");
    assert(", "@ =~= seq![',', ' ']);
    law_wrapping(online as int, 0);
    law_wrapping(max as int, 0);
    lemma_names_filter(list);
}

proof fn lemma_names_filter(list: Seq<JsonV>)
    ensures
        names_of(list) == list.filter(|v: JsonV| v.text("name"@) is Some).map_values(
            |v: JsonV| v.text("name"@)->0,
        ),
    decreases list.len(),
{
    reveal(Seq::filter);
    let has = |v: JsonV| v.text("name"@) is Some;
    let name = |v: JsonV| v.text("name"@)->0;
    if list.len() == 0 {
        assert(list.filter(has).map_values(name) =~= Seq::<Seq<char>>::empty());
    } else {
        let init = list.drop_last();
        lemma_names_filter(init);
        if has(list.last()) {
            assert(init.filter(has).push(list.last()).map_values(name) =~= init.filter(
                has,
            ).map_values(name).push(name(list.last())));
        }
    }
}

/// The reply of a server is the JSON text in it; without such a text, or with another one, it says
/// nothing.
pub proof fn law_reply(payload: Seq<u8>, s: McStatus)
    ensures
        reply_text(payload) is None ==> status_in_reply(payload) is None,
        reply_text(payload) is Some && json_parsed(reply_text(payload)->0) is None ==> status_in_reply(
            payload,
        ) is None,
        reply_text(payload) is Some && json_parsed(reply_text(payload)->0) is Some ==> status_in_reply(
            payload,
        ) == status_in(json_parsed(reply_text(payload)->0)->0),
        s@.online == s.online && s@.max == s.max && s@.names == s.names@,
{
}

} // verus!
