//! Which process listens on a port, as the operating system's tables say it.
use vstd::prelude::*;
use vstd::slice::slice_subrange;

use crate::numbers::{parse_hex, parse_up_to, read_hex16, read_up_to};
use crate::text::{
    after_last, chars_of, index, index_of, lines, lines_of, lower, pieces, same_chars,
    same_ignoring_case, string_of, strip_prefix, strip_suffix, tail_after, trim,
    trim_text, trimmed, without_prefix, without_suffix, words, words_of,
};

verus! {

// ---------------------------------------------------------------------------------------------
// Linux: /proc/net/tcp and the links in /proc
// ---------------------------------------------------------------------------------------------
/// The inode of the socket in a row of the table, where the socket listens on `port`: the second
/// column ends in the port in hexadecimal, the fourth says that it listens, the tenth is the
/// inode.
pub open spec fn inode_in(row: Seq<char>, port: u16) -> Option<nat> {
    let cols = words(row);
    if cols.len() < 10 {
        None
    } else {
        match after_last(cols[1], ':') {
            Some(hex) => if parse_hex(hex, 0xffff) == Some(port as nat) && cols[3] == "0A"@ {
                match parse_up_to(cols[9], u64::MAX as nat) {
                    Some(inode) => if inode != 0 {
                        Some(inode)
                    } else {
                        None
                    },
                    None => None,
                }
            } else {
                None
            },
            None => None,
        }
    }
}

/// The inodes in `rows` of sockets that listen on `port`.
pub open spec fn inodes_in(rows: Seq<Seq<char>>, port: u16) -> Seq<nat>
    decreases rows.len(),
{
    if rows.len() == 0 {
        Seq::empty()
    } else {
        let before = inodes_in(rows.drop_last(), port);
        match inode_in(rows.last(), port) {
            Some(inode) => before.push(inode),
            None => before,
        }
    }
}

/// The rows of a table: all lines but the first.
pub open spec fn rows_of(table: Seq<char>) -> Seq<Seq<char>> {
    let all = lines(table);
    if all.len() > 0 {
        all.drop_first()
    } else {
        all
    }
}

/// Numbers as mathematical numbers.
pub open spec fn naturals(v: Seq<u64>) -> Seq<nat> {
    Seq::new(v.len(), |i: int| v[i] as nat)
}

fn inode_of(row: &Vec<char>, port: u16) -> (r: Option<u64>)
    ensures
        match r {
            Some(inode) => inode_in(row@, port) == Some(inode as nat),
            None => inode_in(row@, port) is None,
        },
{
    let cols = words_of(row);
    let ghost all = pieces(cols@);
    if cols.len() < 10 {
        return None;
    }
    assert(all[1] == cols@[1]@ && all[3] == cols@[3]@ && all[9] == cols@[9]@);
    let hex = match tail_after(&cols[1], ':') {
        Some(h) => h,
        None => {
            return None;
        },
    };
    let listens = match read_hex16(hex) {
        Some(p) => p == port && same_chars(&cols[3], &chars_of("0A")),
        None => false,
    };
    if !listens {
        return None;
    }
    match read_up_to(&cols[9], u64::MAX) {
        Some(inode) => if inode != 0 {
            Some(inode)
        } else {
            None
        },
        None => None,
    }
}

/// The inodes of the sockets in a table that listen on `port`.
pub fn listening_inodes(table: &str, port: u16) -> (r: Vec<u64>)
    ensures
        naturals(r@) == inodes_in(rows_of(table@), port),
{
    let cs = chars_of(table);
    let all = lines_of(&cs);
    let n: usize = all.len();
    let mut out: Vec<u64> = Vec::new();
    let ghost rows = rows_of(table@);
    assert(naturals(out@) == inodes_in(rows.take(0), port));
    if n == 0 {
        assert(rows == Seq::<Seq<char>>::empty());
        return out;
    }
    for i in 1..n
        invariant
            n == all@.len(),
            n > 0,
            rows == pieces(all@).drop_first(),
            naturals(out@) == inodes_in(rows.take(i - 1), port),
    {
        assert(rows.take(i as int).drop_last() == rows.take(i - 1));
        assert(rows.take(i as int).last() == all@[i as int]@);
        if let Some(inode) = inode_of(&all[i], port) {
            let ghost o0 = naturals(out@);
            out.push(inode);
            assert(naturals(out@) == o0.push(inode as nat));
        }
    }
    assert(rows.take(n - 1) == rows);
    out
}

/// The inode that the link of a file descriptor leads to: `socket:[` and `]` around a number.
pub open spec fn socket_in(link: Seq<char>) -> Option<nat> {
    match strip_prefix(link, "socket:["@) {
        Some(rest) => match strip_suffix(rest, "]"@) {
            Some(num) => parse_up_to(num, u64::MAX as nat),
            None => None,
        },
        None => None,
    }
}

fn socket_of(link: &str) -> (r: Option<u64>)
    ensures
        match r {
            Some(n) => socket_in(link@) == Some(n as nat),
            None => socket_in(link@) is None,
        },
{
    let cs = chars_of(link);
    match without_prefix(&cs, &chars_of("socket:[")) {
        Some(rest) => match without_suffix(rest, &chars_of("]")) {
            Some(num) => read_up_to(num, u64::MAX),
            None => None,
        },
        None => None,
    }
}

/// What the links of a process's file descriptors lead to.
pub struct Descriptors {
    pub dir: String,
    pub links: Vec<String>,
}

/// The process that a directory in `/proc` belongs to.
pub open spec fn process_in(dir: Seq<char>) -> Option<nat> {
    parse_up_to(dir, 0xffff_ffff)
}

/// Whether one of the first `n` of `links` leads to one of `inodes`.
pub open spec fn holds_one(links: Seq<String>, n: int, inodes: Seq<nat>) -> bool {
    exists|i: int|
        0 <= i < n && i < links.len() && match socket_in((#[trigger] links[i])@) {
            Some(inode) => inodes.contains(inode),
            None => false,
        }
}

/// The processes that hold one of `inodes`, each once, in the order in which they come.
pub open spec fn holders(all: Seq<Descriptors>, inodes: Seq<nat>) -> Seq<nat>
    decreases all.len(),
{
    if all.len() == 0 {
        Seq::empty()
    } else {
        let before = holders(all.drop_last(), inodes);
        let d = all.last();
        match process_in(d.dir@) {
            Some(pid) => if holds_one(d.links@, d.links@.len() as int, inodes) && !before.contains(
                pid,
            ) {
                before.push(pid)
            } else {
                before
            },
            None => before,
        }
    }
}

/// Process numbers as mathematical numbers.
pub open spec fn pids(v: Seq<u32>) -> Seq<nat> {
    Seq::new(v.len(), |i: int| v[i] as nat)
}

fn is_inode(inodes: &Vec<u64>, x: u64) -> (r: bool)
    ensures
        r == naturals(inodes@).contains(x as nat),
{
    let n: usize = inodes.len();
    for i in 0..n
        invariant
            n == inodes@.len(),
            forall|j: int| 0 <= j < i ==> #[trigger] naturals(inodes@)[j] != x,
    {
        assert(naturals(inodes@)[i as int] == inodes@[i as int] as nat);
        if inodes[i] == x {
            return true;
        }
    }
    false
}

fn is_pid(list: &Vec<u32>, x: u32) -> (r: bool)
    ensures
        r == pids(list@).contains(x as nat),
{
    let n: usize = list.len();
    for i in 0..n
        invariant
            n == list@.len(),
            forall|j: int| 0 <= j < i ==> #[trigger] pids(list@)[j] != x,
    {
        assert(pids(list@)[i as int] == list@[i as int] as nat);
        if list[i] == x {
            return true;
        }
    }
    false
}

fn leads_to_one(links: &Vec<String>, inodes: &Vec<u64>) -> (r: bool)
    ensures
        r == holds_one(links@, links@.len() as int, naturals(inodes@)),
{
    let n: usize = links.len();
    for i in 0..n
        invariant
            n == links@.len(),
            !holds_one(links@, i as int, naturals(inodes@)),
    {
        let found = match socket_of(links[i].as_str()) {
            Some(inode) => is_inode(inodes, inode),
            None => false,
        };
        if found {
            assert(holds_one(links@, n as int, naturals(inodes@)));
            return true;
        }
    }
    false
}

/// The processes that hold one of `inodes`, each once.
pub fn processes_holding(all: &Vec<Descriptors>, inodes: &Vec<u64>) -> (r: Vec<u32>)
    ensures
        pids(r@) == holders(all@, naturals(inodes@)),
{
    let mut out: Vec<u32> = Vec::new();
    let n: usize = all.len();
    assert(pids(out@) == holders(all@.take(0), naturals(inodes@)));
    for i in 0..n
        invariant
            n == all@.len(),
            pids(out@) == holders(all@.take(i as int), naturals(inodes@)),
    {
        assert(all@.take(i + 1).drop_last() == all@.take(i as int));
        if let Some(pid) = process_of(all[i].dir.as_str()) {
            if leads_to_one(&all[i].links, inodes) && !is_pid(&out, pid) {
                let ghost o0 = pids(out@);
                out.push(pid);
                assert(pids(out@) == o0.push(pid as nat));
            }
        }
    }
    assert(all@.take(n as int) == all@);
    out
}

/// The process that a directory in `/proc` belongs to.
pub fn process_of(dir: &str) -> (r: Option<u32>)
    ensures
        match r {
            Some(pid) => process_in(dir@) == Some(pid as nat),
            None => process_in(dir@) is None,
        },
{
    match read_up_to(&chars_of(dir), 0xffff_ffff) {
        Some(v) => Some(v as u32),
        None => None,
    }
}

/// The process that a file with its number names.
pub fn pid_in_file(text: &str) -> (r: Option<u32>)
    ensures
        match r {
            Some(pid) => process_in(trim(text@)) == Some(pid as nat),
            None => process_in(trim(text@)) is None,
        },
{
    process_of(trim_text(text).as_str())
}

/// The processes to end so that a server stops: those that listen on its port, then the one that
/// its file names. Process 0 is none.
pub open spec fn doomed(listening: Seq<u32>, saved: Option<u32>) -> Seq<u32> {
    let all = match saved {
        Some(pid) => listening.push(pid),
        None => listening,
    };
    all.filter(|pid: u32| pid != 0)
}

/// The processes to end so that a server stops: those that listen on its port, then the one that
/// its file names.
pub fn force_stop_java(listening: &Vec<u32>, saved: Option<u32>) -> (r: Vec<u32>)
    ensures
        r@ == doomed(listening@, saved),
{
    let n: usize = listening.len();
    let mut r: Vec<u32> = Vec::new();
    let ghost living = |pid: u32| pid != 0;
    proof {
        reveal(Seq::filter);
        assert(listening@.take(0).filter(living) == Seq::<u32>::empty());
    }
    for i in 0..n
        invariant
            n == listening@.len(),
            living == (|pid: u32| pid != 0),
            r@ == listening@.take(i as int).filter(living),
    {
        proof {
            reveal(Seq::filter);
            assert(listening@.take(i + 1).drop_last() == listening@.take(i as int));
        }
        if listening[i] != 0 {
            r.push(listening[i]);
        }
    }
    assert(listening@.take(n as int) == listening@);
    match saved {
        Some(pid) => {
            proof {
                reveal(Seq::filter);
                assert(listening@.push(pid).drop_last() == listening@);
            }
            if pid != 0 {
                r.push(pid);
            }
        },
        None => {},
    }
    r
}

/// The processes that listen on `port`: `tables` are the socket tables that could be read, `all`
/// the descriptors of the processes.
pub open spec fn listeners(tables: Seq<String>, all: Seq<Descriptors>, port: u16) -> Seq<nat> {
    let inodes = all_inodes(tables, port);
    if inodes.len() == 0 {
        Seq::empty()
    } else {
        holders(all, inodes)
    }
}

/// The inodes in all of `tables`.
pub open spec fn all_inodes(tables: Seq<String>, port: u16) -> Seq<nat>
    decreases tables.len(),
{
    if tables.len() == 0 {
        Seq::empty()
    } else {
        all_inodes(tables.drop_last(), port) + inodes_in(rows_of(tables.last()@), port)
    }
}

/// The inodes in all of `tables` of sockets that listen on `port`.
pub fn inodes_listening(tables: &Vec<String>, port: u16) -> (r: Vec<u64>)
    ensures
        naturals(r@) == all_inodes(tables@, port),
{
    let mut out: Vec<u64> = Vec::new();
    let n: usize = tables.len();
    assert(naturals(out@) == all_inodes(tables@.take(0), port));
    for i in 0..n
        invariant
            n == tables@.len(),
            naturals(out@) == all_inodes(tables@.take(i as int), port),
    {
        assert(tables@.take(i + 1).drop_last() == tables@.take(i as int));
        let mut more = listening_inodes(tables[i].as_str(), port);
        let ghost o0 = naturals(out@);
        let ghost m0 = naturals(more@);
        out.append(&mut more);
        assert(naturals(out@) == o0 + m0);
    }
    assert(tables@.take(n as int) == tables@);
    out
}

/// The processes that listen on `port`.
pub fn pids_listening_linux(tables: &Vec<String>, all: &Vec<Descriptors>, port: u16) -> (r: Vec<
    u32,
>)
    ensures
        pids(r@) == listeners(tables@, all@, port),
{
    let inodes = inodes_listening(tables, port);
    assert(naturals(inodes@).len() == inodes@.len());
    if inodes.len() == 0 {
        let none: Vec<u32> = Vec::new();
        assert(pids(none@) == Seq::<nat>::empty());
        return none;
    }
    processes_holding(all, &inodes)
}

/// No process is named twice.
pub proof fn law_each_holder_once(all: Seq<Descriptors>, inodes: Seq<nat>)
    ensures
        forall|i: int, j: int|
            0 <= i < j < holders(all, inodes).len() ==> holders(all, inodes)[i] != holders(
                all,
                inodes,
            )[j],
    decreases all.len(),
{
    if all.len() > 0 {
        law_each_holder_once(all.drop_last(), inodes);
        let before = holders(all.drop_last(), inodes);
        let after = holders(all, inodes);
        assert forall|i: int, j: int| 0 <= i < j < after.len() implies after[i] != after[j] by {
            assert(after[i] == before[i]);
            if j < before.len() {
                assert(after[j] == before[j]);
            } else {
                assert(before.contains(before[i]));
            }
        }
    }
}

// ---------------------------------------------------------------------------------------------
// Windows: netstat
// ---------------------------------------------------------------------------------------------
/// The port of a local address: after the last colon, or after the brackets of an IPv6 address.
pub open spec fn port_in(addr: Seq<char>) -> Option<nat> {
    let a = trim(addr);
    match strip_prefix(a, "["@) {
        Some(rest) => match index(rest, ']') {
            Some(e) => match strip_prefix(rest.skip(e + 1), ":"@) {
                Some(p) => parse_up_to(p, 0xffff),
                None => None,
            },
            None => None,
        },
        None => match after_last(a, ':') {
            Some(p) => parse_up_to(p, 0xffff),
            None => None,
        },
    }
}

/// The port of a local address.
pub fn local_listen_port(addr: &[char]) -> (r: Option<u16>)
    ensures
        match r {
            Some(p) => port_in(addr@) == Some(p as nat),
            None => port_in(addr@) is None,
        },
{
    let a = trimmed(addr);
    let digits = match without_prefix(a, &chars_of("[")) {
        Some(rest) => match index_of(rest, ']') {
            Some(e) => {
                let n: usize = rest.len();
                assert(rest@.subrange(e + 1, n as int) == rest@.skip(e + 1));
                match without_prefix(slice_subrange(rest, e + 1, n), &chars_of(":")) {
                    Some(p) => p,
                    None => {
                        return None;
                    },
                }
            },
            None => {
                return None;
            },
        },
        None => match tail_after(a, ':') {
            Some(p) => p,
            None => {
                return None;
            },
        },
    };
    match read_up_to(digits, 0xffff) {
        Some(v) => Some(v as u16),
        None => None,
    }
}

/// Whether one of `cols` says that the socket listens.
pub open spec fn says_listening(cols: Seq<Seq<char>>) -> bool {
    exists|i: int| 0 <= i < cols.len() && lower(#[trigger] cols[i]) == lower("LISTENING"@)
}

/// The process in a line of the output, where it listens on `port`.
pub open spec fn listener_in(line: Seq<char>, port: u16) -> Option<nat> {
    let cols = words(line);
    if cols.len() < 5 || !says_listening(cols) || port_in(cols[1]) != Some(port as nat) {
        None
    } else {
        match parse_up_to(cols.last(), 0xffff_ffff) {
            Some(pid) => if pid != 0 {
                Some(pid)
            } else {
                None
            },
            None => None,
        }
    }
}

/// The processes in `output` that listen on `port`, each once, in the order in which they come.
pub open spec fn listeners_in(output: Seq<Seq<char>>, port: u16) -> Seq<nat>
    decreases output.len(),
{
    if output.len() == 0 {
        Seq::empty()
    } else {
        let before = listeners_in(output.drop_last(), port);
        match listener_in(output.last(), port) {
            Some(pid) => if !before.contains(pid) {
                before.push(pid)
            } else {
                before
            },
            None => before,
        }
    }
}

fn any_listening(cols: &Vec<Vec<char>>) -> (r: bool)
    ensures
        r == says_listening(pieces(cols@)),
{
    let n: usize = cols.len();
    let ghost all = pieces(cols@);
    for i in 0..n
        invariant
            n == cols@.len(),
            all == pieces(cols@),
            forall|j: int| 0 <= j < i ==> lower(#[trigger] all[j]) != lower("LISTENING"@),
    {
        assert(all[i as int] == cols@[i as int]@);
        if same_ignoring_case(string_of(&cols[i]).as_str(), "LISTENING") {
            return true;
        }
    }
    false
}

fn listener_of(line: &Vec<char>, port: u16) -> (r: Option<u32>)
    ensures
        match r {
            Some(pid) => listener_in(line@, port) == Some(pid as nat),
            None => listener_in(line@, port) is None,
        },
{
    let cols = words_of(line);
    let n: usize = cols.len();
    let ghost all = pieces(cols@);
    if n < 5 {
        return None;
    }
    assert(all[1] == cols@[1]@ && all[n - 1] == cols@[n - 1]@);
    if !any_listening(&cols) {
        return None;
    }
    match local_listen_port(&cols[1]) {
        Some(p) => if p != port {
            return None;
        },
        None => {
            return None;
        },
    }
    match read_up_to(&cols[n - 1], 0xffff_ffff) {
        Some(pid) => if pid != 0 {
            Some(pid as u32)
        } else {
            None
        },
        None => None,
    }
}

/// The processes in the output of `netstat -ano` that listen on `port`.
pub fn pids_listening_on_port(output: &str, port: u16) -> (r: Vec<u32>)
    ensures
        pids(r@) == listeners_in(lines(output@), port),
{
    let cs = chars_of(output);
    let all = lines_of(&cs);
    let n: usize = all.len();
    let ghost ls = pieces(all@);
    let mut out: Vec<u32> = Vec::new();
    assert(pids(out@) == listeners_in(ls.take(0), port));
    for i in 0..n
        invariant
            n == all@.len(),
            ls == pieces(all@),
            pids(out@) == listeners_in(ls.take(i as int), port),
    {
        assert(ls.take(i + 1).drop_last() == ls.take(i as int));
        assert(ls.take(i + 1).last() == all@[i as int]@);
        if let Some(pid) = listener_of(&all[i], port) {
            if !is_pid(&out, pid) {
                let ghost o0 = pids(out@);
                out.push(pid);
                assert(pids(out@) == o0.push(pid as nat));
            }
        }
    }
    assert(ls.take(n as int) == ls);
    out
}

// ---------------------------------------------------------------------------------------------
// df
// ---------------------------------------------------------------------------------------------
/// The free bytes in the output of `df -B1 -P`: the fourth word of its second line.
pub open spec fn free_in(output: Seq<char>) -> Option<nat> {
    let all = lines(output);
    if all.len() < 2 || words(all[1]).len() < 4 {
        None
    } else {
        parse_up_to(words(all[1])[3], u64::MAX as nat)
    }
}

/// The free bytes in the output of `df -B1 -P`.
pub fn disk_free_bytes(output: &str) -> (r: Option<u64>)
    ensures
        match r {
            Some(n) => free_in(output@) == Some(n as nat),
            None => free_in(output@) is None,
        },
{
    let cs = chars_of(output);
    let all = lines_of(&cs);
    if all.len() < 2 {
        assert(pieces(all@).len() < 2);
        return None;
    }
    assert(pieces(all@)[1] == all@[1]@);
    let cols = words_of(&all[1]);
    if cols.len() < 4 {
        assert(pieces(cols@).len() < 4);
        return None;
    }
    assert(pieces(cols@)[3] == cols@[3]@);
    read_up_to(&cols[3], u64::MAX)
}

// ---------------------------------------------------------------------------------------------
// Laws
// ---------------------------------------------------------------------------------------------
/// A row of the table of sockets counts where its second column ends in the port in hexadecimal, its
/// fourth is `0A`, and its tenth is the inode; the table's first line is none of its rows.
pub proof fn law_rows_of_sockets(row: Seq<char>, a: Seq<char>, hex: Seq<char>, port: u16, table: Seq<char>)
    ensures
        words(row).len() < 10 ==> inode_in(row, port) is None,
        words(row).len() >= 10 && words(row)[1] == a + seq![':'] + hex && !hex.contains(':') ==> {
            let inode = parse_up_to(words(row)[9], u64::MAX as nat);
            if parse_hex(hex, 0xffff) == Some(port as nat) && words(row)[3] == seq!['0', 'A'] && inode
                is Some && inode->0 != 0 {
                inode_in(row, port) == inode
            } else {
                inode_in(row, port) is None
            }
        },
        lines(table).len() > 0 ==> rows_of(table) == lines(table).skip(1),
        lines(table).len() == 0 ==> rows_of(table).len() == 0,
{
    reveal_strlit("0A");
    assert("0A"@ =~= seq!['0', 'A']);
    if !hex.contains(':') {
        crate::text::law_divided(a, ':', hex);
    }
    if lines(table).len() > 0 {
        assert(lines(table).drop_first() =~= lines(table).skip(1));
    }
}

/// The inodes are those of all rows that count, in their order, of all tables, one after the other.
pub proof fn law_all_sockets(
    rows: Seq<Seq<char>>,
    row: Seq<char>,
    tables: Seq<String>,
    table: String,
    port: u16,
)
    ensures
        inodes_in(Seq::empty(), port) == Seq::<nat>::empty(),
        inode_in(row, port) is Some ==> inodes_in(rows.push(row), port) == inodes_in(rows, port).push(
            inode_in(row, port)->0,
        ),
        inode_in(row, port) is None ==> inodes_in(rows.push(row), port) == inodes_in(rows, port),
        all_inodes(Seq::empty(), port) == Seq::<nat>::empty(),
        all_inodes(tables.push(table), port) == all_inodes(tables, port) + inodes_in(
            rows_of(table@),
            port,
        ),
{
    assert(rows.push(row).drop_last() == rows);
    assert(tables.push(table).drop_last() == tables);
}

/// A descriptor leads to a socket exactly if its link is `socket:[`, the inode and `]`.
#[verifier::spinoff_prover]
#[verifier::rlimit(60)]
pub proof fn law_links(n: u64, link: Seq<char>)
    ensures
        socket_in("socket:["@ + crate::numbers::decimal(n as nat) + seq![']']) == Some(n as nat),
        socket_in(link) is Some ==> crate::text::starts_with(link, "socket:["@) && link.len() > 8
            && link.last() == ']',
{
    reveal_strlit("socket:[");
    reveal_strlit("]");
    assert("]"@ =~= seq![']']);
    let d = crate::numbers::decimal(n as nat);
    crate::numbers::law_decimal_read_back(n as nat, u64::MAX as nat);
    crate::text::law_ends("socket:["@, d + seq![']']);
    crate::text::law_ends("]"@, d);
    assert("socket:["@ + d + seq![']'] =~= "socket:["@ + (d + seq![']']));
    if socket_in(link) is Some {
        let rest = strip_prefix(link, "socket:["@)->0;
        assert(rest.skip(rest.len() - 1) == "]"@);
        assert(rest.last() == rest.skip(rest.len() - 1)[0]);
        assert(link.last() == rest.last());
    }
}

/// A process holds a socket exactly if it is named by a directory, and one of the links there leads
/// to the inode of one of the sockets.
pub proof fn law_who_holds(all: Seq<Descriptors>, inodes: Seq<nat>, pid: nat)
    ensures
        holders(all, inodes).contains(pid) <==> exists|k: int, i: int|
            #![trigger all[k].links@[i]]
            0 <= k < all.len() && parse_up_to(all[k].dir@, 0xffff_ffff) == Some(pid) && 0 <= i
                < all[k].links@.len() && socket_in(all[k].links@[i]@) is Some && inodes.contains(
                socket_in(all[k].links@[i]@)->0,
            ),
    decreases all.len(),
{
    if all.len() > 0 {
        let init = all.drop_last();
        let d = all.last();
        let n = init.len() as int;
        law_who_holds(init, inodes, pid);
        let before = holders(init, inodes);
        let after = holders(all, inodes);
        assert(all[n] == d);
        assert(after.contains(pid) <==> before.contains(pid) || (process_in(d.dir@) == Some(pid)
            && holds_one(d.links@, d.links@.len() as int, inodes))) by {
            if before.contains(pid) {
                let j = choose|j: int| 0 <= j < before.len() && before[j] == pid;
                assert(after[j] == pid);
            }
            if process_in(d.dir@) == Some(pid) && holds_one(d.links@, d.links@.len() as int, inodes)
                && !before.contains(pid) {
                assert(after[before.len() as int] == pid);
            }
            if after.contains(pid) && !before.contains(pid) {
                let j = choose|j: int| 0 <= j < after.len() && after[j] == pid;
                if j < before.len() {
                    assert(before[j] == pid);
                }
            }
        }
        if before.contains(pid) {
            let (k, i) = choose|k: int, i: int|
                #![trigger init[k].links@[i]]
                0 <= k < init.len() && parse_up_to(init[k].dir@, 0xffff_ffff) == Some(pid) && 0 <= i
                    < init[k].links@.len() && socket_in(init[k].links@[i]@) is Some && inodes.contains(
                    socket_in(init[k].links@[i]@)->0,
                );
            assert(all[k] == init[k]);
            assert(all[k].links@[i] == init[k].links@[i]);
        }
        if process_in(d.dir@) == Some(pid) && holds_one(d.links@, d.links@.len() as int, inodes) {
            let i = choose|i: int|
                0 <= i < d.links@.len() && match socket_in((#[trigger] d.links@[i])@) {
                    Some(inode) => inodes.contains(inode),
                    None => false,
                };
            assert(all[n].links@[i] == d.links@[i]);
        }
        if exists|k: int, i: int|
            #![trigger all[k].links@[i]]
            0 <= k < all.len() && parse_up_to(all[k].dir@, 0xffff_ffff) == Some(pid) && 0 <= i
                < all[k].links@.len() && socket_in(all[k].links@[i]@) is Some && inodes.contains(
                socket_in(all[k].links@[i]@)->0,
            ) {
            let (k, i) = choose|k: int, i: int|
                #![trigger all[k].links@[i]]
                0 <= k < all.len() && parse_up_to(all[k].dir@, 0xffff_ffff) == Some(pid) && 0 <= i
                    < all[k].links@.len() && socket_in(all[k].links@[i]@) is Some && inodes.contains(
                    socket_in(all[k].links@[i]@)->0,
                );
            if k < n {
                assert(init[k] == all[k]);
                assert(init[k].links@[i] == all[k].links@[i]);
            } else {
                assert(d.links@[i] == all[k].links@[i]);
                assert(holds_one(d.links@, d.links@.len() as int, inodes));
            }
        }
    }
}

/// The processes that listen are those that hold a socket that does; without such a socket there are
/// none.
pub proof fn law_who_listens(tables: Seq<String>, all: Seq<Descriptors>, port: u16)
    ensures
        all_inodes(tables, port).len() == 0 ==> listeners(tables, all, port) == Seq::<nat>::empty(),
        all_inodes(tables, port).len() > 0 ==> listeners(tables, all, port) == holders(
            all,
            all_inodes(tables, port),
        ),
{
}

/// To stop a server by force, every process that listens on its port is ended, and the one that its
/// file names; process 0 never is.
pub proof fn law_who_is_ended(listening: Seq<u32>, saved: Option<u32>, pid: u32)
    ensures
        doomed(listening, saved).contains(pid) <==> pid != 0 && (listening.contains(pid) || saved == Some(
            pid,
        )),
{
    let living = |p: u32| p != 0;
    let all = match saved {
        Some(p) => listening.push(p),
        None => listening,
    };
    let out = all.filter(living);
    if out.contains(pid) {
        all.lemma_filter_contains_rev(living, pid);
        let i = choose|i: int| 0 <= i < out.len() && out[i] == pid;
        all.lemma_filter_pred(living, i);
    }
    if pid != 0 && all.contains(pid) {
        let i = choose|i: int| 0 <= i < all.len() && all[i] == pid;
        all.lemma_filter_contains(living, i);
    }
    if listening.contains(pid) {
        let i = choose|i: int| 0 <= i < listening.len() && listening[i] == pid;
        assert(all[i] == pid);
    }
    if saved == Some(pid) {
        assert(all[listening.len() as int] == pid);
    }
    if all.contains(pid) {
        let i = choose|i: int| 0 <= i < all.len() && all[i] == pid;
        if i < listening.len() {
            assert(listening[i] == pid);
        }
    }
}

/// The port of a local address stands after its last colon; that of an IPv6 address after the
/// brackets and a colon.
#[verifier::spinoff_prover]
#[verifier::rlimit(60)]
pub proof fn law_port_of_an_address(a: Seq<char>, inner: Seq<char>, port: u16)
    requires
        a.len() > 0,
        a.first() != '[',
        !crate::text::is_white(a.first()),
        !inner.contains(']'),
    ensures
        port_in(a + seq![':'] + crate::numbers::decimal(port as nat)) == Some(port as nat),
        port_in(seq!['['] + inner + seq![']', ':'] + crate::numbers::decimal(port as nat)) == Some(
            port as nat,
        ),
{
    reveal_strlit("[");
    reveal_strlit(":");
    assert("["@ =~= seq!['[']);
    assert(":"@ =~= seq![':']);
    let d = crate::numbers::decimal(port as nat);
    crate::numbers::law_decimal_read_back(port as nat, 0xffff);
    crate::numbers::lemma_decimal(port as nat);
    assert(crate::text::is_digit(d[0]) && crate::text::is_digit(d[d.len() - 1]));
    let none = Seq::<char>::empty();
    let x = a + seq![':'] + d;
    assert(x.first() == a.first() && x.last() == d.last());
    crate::text::law_trim(none, x, none);
    assert(none + x + none == x);
    assert(!crate::text::starts_with(x, "["@)) by {
        if crate::text::starts_with(x, "["@) {
            assert(x.take(1)[0] == '[');
        }
    }
    assert(!d.contains(':')) by {
        if d.contains(':') {
            let i = choose|i: int| 0 <= i < d.len() && d[i] == ':';
            assert(crate::text::is_digit(d[i]));
        }
    }
    crate::text::law_divided(a, ':', d);
    let tail = inner + seq![']', ':'] + d;
    let y = seq!['['] + inner + seq![']', ':'] + d;
    assert(y.first() == '[' && y.last() == d.last());
    crate::text::law_trim(none, y, none);
    assert(none + y + none == y);
    crate::text::law_ends("["@, tail);
    assert("["@ + tail =~= y);
    let e = inner.len() as int;
    crate::text::lemma_index_from(tail, ']', 0);
    assert(tail[e] == ']');
    assert forall|j: int| 0 <= j < e implies tail[j] != ']' by {
        assert(inner.contains(inner[j]));
    }
    assert(index(tail, ']') == Some(e));
    assert(tail.skip(e + 1) =~= ":"@ + d);
    crate::text::law_ends(":"@, d);
}

/// A line of the output counts where it has five columns or more, one of them says that the socket
/// listens, the second ends in the port, and the last is a process, which is not 0.
pub proof fn law_line_of_a_listener(line: Seq<char>, port: u16)
    ensures
        ({
            let cols = words(line);
            let pid = parse_up_to(cols.last(), 0xffff_ffff);
            let listens = exists|i: int|
                0 <= i < cols.len() && lower(#[trigger] cols[i]) == seq![
                    'l',
                    'i',
                    's',
                    't',
                    'e',
                    'n',
                    'i',
                    'n',
                    'g',
                ];
            if cols.len() >= 5 && listens && port_in(cols[1]) == Some(port as nat) && pid is Some && pid->0
                != 0 {
                listener_in(line, port) == pid
            } else {
                listener_in(line, port) is None
            }
        }),
{
    reveal_strlit("LISTENING");
    assert(lower("LISTENING"@) =~= seq!['l', 'i', 's', 't', 'e', 'n', 'i', 'n', 'g']);
    let cols = words(line);
    if says_listening(cols) {
        let i = choose|i: int| 0 <= i < cols.len() && lower(#[trigger] cols[i]) == lower("LISTENING"@);
        assert(lower(cols[i]) == seq!['l', 'i', 's', 't', 'e', 'n', 'i', 'n', 'g']);
    }
}

/// Every process that a line names is listed, once, and no other.
pub proof fn law_listeners_in_output(output: Seq<Seq<char>>, port: u16, pid: nat)
    ensures
        listeners_in(output, port).contains(pid) <==> exists|k: int|
            0 <= k < output.len() && listener_in(#[trigger] output[k], port) == Some(pid),
        forall|i: int, j: int|
            0 <= i < j < listeners_in(output, port).len() ==> listeners_in(output, port)[i]
                != listeners_in(output, port)[j],
    decreases output.len(),
{
    if output.len() > 0 {
        let init = output.drop_last();
        law_listeners_in_output(init, port, pid);
        let before = listeners_in(init, port);
        let after = listeners_in(output, port);
        assert(output[output.len() - 1] == output.last());
        if before.contains(pid) {
            let j = choose|j: int| 0 <= j < before.len() && before[j] == pid;
            assert(after[j] == pid);
            let k = choose|k: int| 0 <= k < init.len() && listener_in(#[trigger] init[k], port) == Some(pid);
            assert(output[k] == init[k]);
        }
        if listener_in(output.last(), port) == Some(pid) && !before.contains(pid) {
            assert(after[before.len() as int] == pid);
        }
        if after.contains(pid) && !before.contains(pid) {
            let j = choose|j: int| 0 <= j < after.len() && after[j] == pid;
            if j < before.len() {
                assert(before[j] == pid);
            }
            assert(listener_in(output[output.len() - 1], port) == Some(pid));
        }
        if exists|k: int| 0 <= k < output.len() && listener_in(#[trigger] output[k], port) == Some(pid) {
            let k = choose|k: int|
                0 <= k < output.len() && listener_in(#[trigger] output[k], port) == Some(pid);
            if k < init.len() {
                assert(init[k] == output[k]);
            }
        }
        assert forall|i: int, j: int| 0 <= i < j < after.len() implies after[i] != after[j] by {
            assert(after[i] == before[i]);
            if j < before.len() {
                assert(after[j] == before[j]);
            } else {
                assert(before.contains(before[i]));
            }
        }
    }
}

/// The free bytes are the fourth word of the second line, where that is a number.
pub proof fn law_free_bytes(output: Seq<char>)
    ensures
        lines(output).len() >= 2 && words(lines(output)[1]).len() >= 4 ==> free_in(output) == parse_up_to(
            words(lines(output)[1])[3],
            u64::MAX as nat,
        ),
        lines(output).len() < 2 || words(lines(output)[1]).len() < 4 ==> free_in(output) is None,
{
}

/// Numbers are seen one by one, as they are.
pub proof fn law_rows_of_numbers(a: Seq<u64>, b: Seq<u32>)
    ensures
        naturals(a).len() == a.len(),
        forall|i: int| 0 <= i < a.len() ==> #[trigger] naturals(a)[i] == a[i],
        pids(b).len() == b.len(),
        forall|i: int| 0 <= i < b.len() ==> #[trigger] pids(b)[i] == b[i],
{
}

/// A directory belongs to the process whose number it is called by.
pub proof fn law_directories(pid: u32, dir: Seq<char>)
    ensures
        process_in(crate::numbers::decimal(pid as nat)) == Some(pid as nat),
        process_in(dir) == parse_up_to(dir, 0xffff_ffff),
{
    crate::numbers::law_decimal_read_back(pid as nat, 0xffff_ffff);
}

} // verus!
