//! The bytes of a picture, before it is decoded: whether its decoder's own sums and places stay
//! within their ranges.
use vstd::prelude::*;

verus! {

/// The number that the two bytes at `p` hold, the higher one first.
pub open spec fn pair_at(b: Seq<u8>, p: int) -> int {
    b[p] * 256 + b[p + 1]
}

/// The number that the two bytes at `p` hold.
fn pair_of(b: &[u8], p: usize) -> (r: u16)
    requires
        p + 1 < b@.len(),
    ensures
        r == pair_at(b@, p as int),
{
    b[p] as u16 * 256 + b[p + 1] as u16
}

/// Whether the four bytes stand at `p`.
pub open spec fn word_at(b: Seq<u8>, p: int, w: (u8, u8, u8, u8)) -> bool {
    &&& 0 <= p
    &&& p + 4 <= b.len()
    &&& b[p] == w.0
    &&& b[p + 1] == w.1
    &&& b[p + 2] == w.2
    &&& b[p + 3] == w.3
}

/// Whether the four bytes stand at `p`.
fn has_word(b: &[u8], p: usize, w: (u8, u8, u8, u8)) -> (r: bool)
    ensures
        r == word_at(b@, p as int, w),
{
    b.len() >= 4 && p <= b.len() - 4 && b[p] == w.0 && b[p + 1] == w.1 && b[p + 2] == w.2 && b[p
        + 3] == w.3
}

// ---------------------------------------------------------------------------------------------
// JPEG: the segments of the header
// ---------------------------------------------------------------------------------------------
/// Whether a marker stands at `p`: a byte 255, and one that is neither 0 nor 255.
pub open spec fn is_marker(b: Seq<u8>, p: int) -> bool {
    0 <= p && p + 1 < b.len() && b[p] == 0xff && b[p + 1] != 0 && b[p + 1] != 0xff
}

/// Where the first marker from `p` on stands, or the end.
pub open spec fn next_marker(b: Seq<u8>, p: int) -> int
    decreases b.len() - p,
{
    if p + 1 >= b.len() {
        b.len() as int
    } else if is_marker(b, p) {
        p
    } else {
        next_marker(b, p + 1)
    }
}

/// Where the segments of the header stand, from `p` on, up to the one that begins a scan. A segment
/// is a marker and as many bytes as the two after it say.
pub open spec fn segments(b: Seq<u8>, p: int) -> Seq<usize>
    decreases b.len() - p,
{
    let q = next_marker(b, p);
    if !(p <= q && q + 3 < b.len()) {
        Seq::empty()
    } else if b[q + 1] == 0xda || pair_at(b, q + 2) < 2 || q + 2 + pair_at(b, q + 2) >= b.len() {
        seq![q as usize]
    } else {
        seq![q as usize] + segments(b, q + 2 + pair_at(b, q + 2))
    }
}

/// Where the segments of the header stand.
fn segments_of(b: &[u8]) -> (r: Vec<usize>)
    ensures
        r@ == segments(b@, 2),
        forall|i: int| 0 <= i < r@.len() ==> #[trigger] r@[i] + 3 < b@.len(),
{
    let n: usize = b.len();
    let mut out: Vec<usize> = Vec::new();
    let mut start: usize = 2;
    let mut p: usize = 2;
    assert(segments(b@, 2) == out@ + segments(b@, 2));
    while p < n && n - p > 3
        invariant
            n == b@.len(),
            2 <= start <= p,
            next_marker(b@, start as int) == next_marker(b@, p as int),
            segments(b@, 2) == out@ + segments(b@, start as int),
            forall|i: int| 0 <= i < out@.len() ==> #[trigger] out@[i] + 3 < b@.len(),
        decreases n - p,
    {
        if b[p] == 0xff && b[p + 1] != 0 && b[p + 1] != 0xff {
            assert(next_marker(b@, p as int) == p);
            let size: u16 = pair_of(b, p + 2);
            let ghost before = out@;
            out.push(p);
            if b[p + 1] == 0xda || size < 2 || n - (p + 2) <= size as usize {
                assert(out@ =~= before + segments(b@, start as int));
                return out;
            }
            let ghost rest = segments(b@, p + 2 + size);
            assert(out@ + rest =~= before + segments(b@, start as int));
            p = p + 2 + size as usize;
            start = p;
        } else {
            p += 1;
        }
    }
    proof {
        lemma_no_segment(b@, start as int, p as int);
        assert(out@ =~= out@ + segments(b@, start as int));
    }
    out
}

/// Near the end no segment begins.
proof fn lemma_no_segment(b: Seq<u8>, start: int, p: int)
    requires
        0 <= start <= p,
        p + 3 >= b.len(),
        next_marker(b, start) == next_marker(b, p),
    ensures
        segments(b, start) == Seq::<usize>::empty(),
{
    lemma_marker_after(b, p);
}

/// The next marker stands at `p` or after it, or nowhere.
proof fn lemma_marker_after(b: Seq<u8>, p: int)
    ensures
        next_marker(b, p) >= p || next_marker(b, p) == b.len(),
    decreases b.len() - p,
{
    if p + 1 < b.len() && !is_marker(b, p) {
        lemma_marker_after(b, p + 1);
    }
}

// ---------------------------------------------------------------------------------------------
// JPEG: the tables of the header
// ---------------------------------------------------------------------------------------------
/// The first entry of each of the four quantisation tables, once the tables from `o` up to `end`
/// take the place of those in `t`: a byte with the table's number, in its higher half whether the
/// entries take two bytes, and 64 entries.
pub open spec fn first_entries(b: Seq<u8>, o: int, end: int, t: Seq<u16>) -> Seq<u16>
    decreases end - o,
{
    let size = if b[o] < 16 {
        65int
    } else {
        129
    };
    if o + size > end || b[o] >= 32 || b[o] % 16 >= 4 {
        t
    } else if b[o] < 16 {
        first_entries(b, o + size, end, t.update(b[o] as int, b[o + 1] as u16))
    } else {
        first_entries(b, o + size, end, t.update(b[o] as int % 16, pair_at(b, o + 1) as u16))
    }
}

/// The sum of the `n` bytes from `o` on.
pub open spec fn sum_of(b: Seq<u8>, o: int, n: nat) -> nat
    decreases n,
{
    if n == 0 {
        0
    } else {
        sum_of(b, o, (n - 1) as nat) + b[o + n - 1] as nat
    }
}

/// The largest of the `n` bytes from `o` on.
pub open spec fn largest_of(b: Seq<u8>, o: int, n: nat) -> u16
    decreases n,
{
    if n == 0 {
        0
    } else {
        let most = largest_of(b, o, (n - 1) as nat);
        if most < b[o + n - 1] {
            b[o + n - 1] as u16
        } else {
            most
        }
    }
}

/// The largest category of each of the four tables for the first coefficient of a block, once the
/// tables from `o` up to `end` take the place of those in `t`: a byte with the table's number and
/// use, sixteen counts, and as many categories.
pub open spec fn categories(b: Seq<u8>, o: int, end: int, t: Seq<u16>) -> Seq<u16>
    decreases end - o,
{
    let n = sum_of(b, o + 1, 16);
    if o + 17 + n > end {
        t
    } else if b[o] < 4 {
        categories(b, o + 17 + n, end, t.update(b[o] as int, largest_of(b, o + 17, n)))
    } else {
        categories(b, o + 17 + n, end, t)
    }
}

/// The first entries of the quantisation tables of the segments `at`.
pub open spec fn all_entries(b: Seq<u8>, at: Seq<usize>) -> Seq<u16>
    decreases at.len(),
{
    if at.len() == 0 {
        seq![0, 0, 0, 0]
    } else {
        let t = all_entries(b, at.drop_last());
        let p = at.last() as int;
        let end = p + 2 + pair_at(b, p + 2);
        if b[p + 1] == 0xdb && end <= b.len() {
            first_entries(b, p + 4, end, t)
        } else {
            t
        }
    }
}

/// The largest categories of the tables of the segments `at`. A table that none of them gives has
/// the categories up to 11, as the tables of films have.
pub open spec fn all_categories(b: Seq<u8>, at: Seq<usize>) -> Seq<u16>
    decreases at.len(),
{
    if at.len() == 0 {
        seq![11, 11, 11, 11]
    } else {
        let t = all_categories(b, at.drop_last());
        let p = at.last() as int;
        let end = p + 2 + pair_at(b, p + 2);
        if b[p + 1] == 0xc4 && end <= b.len() {
            categories(b, p + 4, end, t)
        } else {
            t
        }
    }
}

/// Replaces the entries in `t` by those of the tables from `o` up to `end`.
fn read_entries(b: &[u8], o: usize, end: usize, t: &mut Vec<u16>)
    requires
        o <= b@.len(),
        end <= b@.len(),
        old(t)@.len() == 4,
    ensures
        final(t)@ == first_entries(b@, o as int, end as int, old(t)@),
        final(t)@.len() == 4,
{
    let mut p: usize = o;
    while p < end
        invariant
            end <= b@.len(),
            t@.len() == 4,
            first_entries(b@, p as int, end as int, t@) == first_entries(
                b@,
                o as int,
                end as int,
                old(t)@,
            ),
        decreases end - p,
    {
        let size: usize = if b[p] < 16 {
            65
        } else {
            129
        };
        if end - p < size || b[p] >= 32 || b[p] % 16 >= 4 {
            return;
        }
        if b[p] < 16 {
            let i: usize = b[p] as usize;
            assert(i == b@[p as int] % 16);
            t.set(i, b[p + 1] as u16);
        } else {
            let i: usize = (b[p] % 16) as usize;
            t.set(i, pair_of(b, p + 1));
        }
        p += size;
    }
}

/// The sum of the sixteen bytes from `o` on.
fn sum_of_counts(b: &[u8], o: usize) -> (r: usize)
    requires
        o + 16 <= b@.len(),
    ensures
        r == sum_of(b@, o as int, 16),
        r <= 4080,
{
    let len: usize = b.len();
    let mut sum: usize = 0;
    for i in 0..16usize
        invariant
            o + 16 <= len,
            len == b@.len(),
            sum == sum_of(b@, o as int, i as nat),
            sum <= 255 * i,
    {
        sum += b[o + i] as usize;
    }
    sum
}

/// The largest of the `n` bytes from `o` on.
fn largest_byte(b: &[u8], o: usize, n: usize) -> (r: u16)
    requires
        o + n <= b@.len(),
    ensures
        r == largest_of(b@, o as int, n as nat),
{
    let len: usize = b.len();
    let mut most: u16 = 0;
    for i in 0..n
        invariant
            o + n <= len,
            len == b@.len(),
            most == largest_of(b@, o as int, i as nat),
    {
        if most < b[o + i] as u16 {
            most = b[o + i] as u16;
        }
    }
    most
}

/// Replaces the categories in `t` by those of the tables from `o` up to `end`.
fn read_categories(b: &[u8], o: usize, end: usize, t: &mut Vec<u16>)
    requires
        o <= b@.len(),
        end <= b@.len(),
        old(t)@.len() == 4,
    ensures
        final(t)@ == categories(b@, o as int, end as int, old(t)@),
        final(t)@.len() == 4,
{
    let mut p: usize = o;
    while p < end && end - p >= 17
        invariant
            end <= b@.len(),
            t@.len() == 4,
            categories(b@, p as int, end as int, t@) == categories(
                b@,
                o as int,
                end as int,
                old(t)@,
            ),
        decreases end - p,
    {
        let n: usize = sum_of_counts(b, p + 1);
        if end - p - 17 < n {
            return;
        }
        if b[p] < 4 {
            let i: usize = b[p] as usize;
            t.set(i, largest_byte(b, p + 17, n));
        }
        p = p + 17 + n;
    }
}

/// The first entries and the largest categories of the tables of the segments `at`.
fn tables_of(b: &[u8], at: &Vec<usize>) -> (r: (Vec<u16>, Vec<u16>))
    requires
        forall|i: int| 0 <= i < at@.len() ==> #[trigger] at@[i] + 3 < b@.len(),
    ensures
        r.0@ == all_entries(b@, at@),
        r.1@ == all_categories(b@, at@),
        r.0@.len() == 4,
        r.1@.len() == 4,
{
    let mut entries: Vec<u16> = vec![0, 0, 0, 0];
    let mut most: Vec<u16> = vec![11, 11, 11, 11];
    assert(entries@ =~= all_entries(b@, at@.take(0)));
    assert(most@ =~= all_categories(b@, at@.take(0)));
    let len: usize = b.len();
    let n: usize = at.len();
    for i in 0..n
        invariant
            len == b@.len(),
            n == at@.len(),
            forall|i: int| 0 <= i < at@.len() ==> #[trigger] at@[i] + 3 < b@.len(),
            entries@ == all_entries(b@, at@.take(i as int)),
            most@ == all_categories(b@, at@.take(i as int)),
            entries@.len() == 4,
            most@.len() == 4,
    {
        let p: usize = at[i];
        let size: usize = pair_of(b, p + 2) as usize;
        assert(at@.take(i + 1).drop_last() =~= at@.take(i as int));
        assert(at@.take(i + 1).last() == p);
        if len - (p + 2) >= size {
            if b[p + 1] == 0xdb {
                read_entries(b, p + 4, p + 2 + size, &mut entries);
            }
            if b[p + 1] == 0xc4 {
                read_categories(b, p + 4, p + 2 + size, &mut most);
            }
        }
    }
    assert(at@.take(n as int) =~= at@);
    (entries, most)
}

// ---------------------------------------------------------------------------------------------
// JPEG: how far the first coefficients go
// ---------------------------------------------------------------------------------------------
/// Whether the marker `kind` stands somewhere after `from`.
pub open spec fn stands_after(b: Seq<u8>, from: int, kind: u8) -> bool {
    exists|p: int| from < p && p + 1 < b.len() && #[trigger] b[p] == 0xff && b[p + 1] == kind
}

/// Whether the marker `kind` stands somewhere after `from`.
fn is_after(b: &[u8], from: usize, kind: u8) -> (r: bool)
    requires
        from < b@.len(),
    ensures
        r == stands_after(b@, from as int, kind),
{
    let n: usize = b.len();
    let mut p: usize = from + 1;
    while p < n && n - p > 1
        invariant
            n == b@.len(),
            from < p,
            forall|i: int| from < i < p && i + 1 < n && #[trigger] b@[i] == 0xff ==> b@[i + 1] != kind,
        decreases n - p,
    {
        if b[p] == 0xff && b[p + 1] == kind {
            return true;
        }
        p += 1;
    }
    false
}

/// The largest difference that a category holds, which is never above 15: so many bits.
pub open spec fn most_of(category: int) -> int
    decreases category,
{
    if category <= 0 {
        0
    } else if category > 15 {
        32_767
    } else {
        2 * most_of(category - 1) + 1
    }
}

/// The largest difference that a category holds.
fn most_in(category: u16) -> (r: u64)
    ensures
        r == most_of(category as int),
        r <= 32_767,
{
    if category > 15 {
        return 32_767;
    }
    let mut most: u64 = 0;
    for i in 0..category
        invariant
            category <= 15,
            most == most_of(i as int),
            most <= 32_767,
    {
        proof {
            reveal_with_fuel(most_of, 17);
        }
        most = 2 * most + 1;
    }
    most
}

/// How far the first coefficient of a component may go from one of its blocks to the next in the
/// scan that begins at `p`: not at all where the scan does not hold the component `id`, else by
/// what the scan's table for it allows. The first `n` components of the scan are looked at.
pub open spec fn step_in(b: Seq<u8>, p: int, n: int, id: u8, most: Seq<u16>) -> int
    decreases n,
{
    if n <= 0 {
        0
    } else if b[p + 3 + 2 * n] == id {
        step_in(b, p, n - 1, id, most) + most_of(most[b[p + 4 + 2 * n] as int / 16 % 4] as int)
    } else {
        step_in(b, p, n - 1, id, most)
    }
}

/// How far the first coefficient of the component `id` may go from block to block, all scans from
/// `p` on taken together. A scan holds four components at most.
pub open spec fn step_of(b: Seq<u8>, p: int, id: u8, most: Seq<u16>) -> int
    decreases b.len() - p,
{
    if p + 4 >= b.len() {
        0
    } else if b[p] == 0xff && b[p + 1] == 0xda && b[p + 4] <= 4 && p + 4 + 2 * b[p + 4] < b.len() {
        step_in(b, p, b[p + 4] as int, id, most) + step_of(b, p + 1, id, most)
    } else {
        step_of(b, p + 1, id, most)
    }
}

/// How far the first coefficient may go in the scan at `p`.
fn step_in_scan(b: &[u8], p: usize, id: u8, most: &Vec<u16>) -> (r: u64)
    requires
        p + 4 < b@.len(),
        b@[p + 4] <= 4,
        p + 4 + 2 * b@[p + 4] < b@.len(),
        most@.len() == 4,
    ensures
        r == step_in(b@, p as int, b@[p + 4] as int, id, most@),
        r <= 131_068,
{
    let len: usize = b.len();
    let n: usize = b[p + 4] as usize;
    let mut sum: u64 = 0;
    for k in 0..n
        invariant
            len == b@.len(),
            n <= 4,
            p + 4 + 2 * n < len,
            most@.len() == 4,
            sum == step_in(b@, p as int, k as int, id, most@),
            sum <= 32_767 * k,
    {
        if b[p + 5 + 2 * k] == id {
            let i: usize = (b[p + 6 + 2 * k] / 16 % 4) as usize;
            sum += most_in(most[i]);
        }
    }
    sum
}

/// How far the first coefficient may go in all scans from `from` on.
fn step_in_scans(b: &[u8], from: usize, id: u8, most: &Vec<u16>) -> (r: u128)
    requires
        from <= b@.len(),
        most@.len() == 4,
    ensures
        r == step_of(b@, from as int, id, most@),
        r <= 131_068 * b@.len(),
{
    let n: usize = b.len();
    let mut p: usize = n;
    let mut sum: u128 = 0;
    while p > from
        invariant
            n == b@.len(),
            from <= p <= n,
            most@.len() == 4,
            sum == step_of(b@, p as int, id, most@),
            sum <= 131_068 * (n - p),
        decreases p,
    {
        p -= 1;
        if n - p > 4 && b[p] == 0xff && b[p + 1] == 0xda && b[p + 4] <= 4 && n - p > 4 + 2
            * b[p + 4] as usize {
            sum += step_in_scan(b, p, id, most) as u128;
        }
    }
    sum
}

// ---------------------------------------------------------------------------------------------
// JPEG: the frame
// ---------------------------------------------------------------------------------------------
/// Whether the segment at `p` begins a frame that can be decoded.
pub open spec fn is_frame(b: Seq<u8>, p: int) -> bool {
    0xc0 <= b[p + 1] <= 0xc2
}

/// Whether the frame at `p` says what it holds of each of its components.
pub open spec fn is_whole_frame(b: Seq<u8>, p: int) -> bool {
    p + 9 < b.len() && p + 9 + 3 * b[p + 9] < b.len()
}

/// How many samples across the component `c` of the frame at `p` has in a unit.
pub open spec fn across_of(b: Seq<u8>, p: int, c: int) -> int {
    b[p + 11 + 3 * c] as int / 16
}

/// How many samples down the component `c` of the frame at `p` has in a unit.
pub open spec fn down_of(b: Seq<u8>, p: int, c: int) -> int {
    b[p + 11 + 3 * c] as int % 16
}

/// Whether the component `c` of the frame at `p` has no more samples in a unit than the first one.
pub open spec fn is_within_first(b: Seq<u8>, p: int, c: int) -> bool {
    across_of(b, p, c) <= across_of(b, p, 0) && down_of(b, p, c) <= down_of(b, p, 0)
}

/// How many units of `8 * samples` a side takes.
pub open spec fn units(side: int, samples: int) -> int {
    (side + 8 * samples - 1) / (8 * samples)
}

/// How many blocks the component `c` of the frame at `p` has, where the first component has the
/// most samples in a unit.
pub open spec fn blocks_of(b: Seq<u8>, p: int, c: int) -> int {
    units(pair_at(b, p + 7), across_of(b, p, 0)) * across_of(b, p, c) * (units(
        pair_at(b, p + 5),
        down_of(b, p, 0),
    ) * down_of(b, p, c))
}

/// Whether the first coefficients of the component `c` of the frame at `p` stay in 32 bits: however
/// far they go from block to block, times the first entry of the component's quantisation table,
/// and with the 1028 that rounding adds. `scan` is where the first scan begins. They begin again at
/// zero only where a restart marker is met, which the header does not promise, and go on from scan
/// to scan.
pub open spec fn dc_fits(
    b: Seq<u8>,
    p: int,
    c: int,
    scan: int,
    entries: Seq<u16>,
    most: Seq<u16>,
) -> bool {
    b[p + 12 + 3 * c] < 4 ==> blocks_of(b, p, c) * step_of(b, scan, b[p + 10 + 3 * c], most)
        * entries[b[p + 12 + 3 * c] as int] <= 0x7fff_ffff - 1028
}

/// The categories that count for the scans: those of the header's tables, or the highest where a
/// table is given after the first scan has begun.
pub open spec fn scan_categories(b: Seq<u8>, at: Seq<usize>) -> Seq<u16> {
    if stands_after(b, at.last() as int, 0xc4) {
        seq![15, 15, 15, 15]
    } else {
        all_categories(b, at)
    }
}

/// Whether the frame that the segment `i` of `at` begins can be decoded within the ranges of the
/// decoder: it has not just two components; the first of several has the most samples in a unit, and
/// no more than two down; nothing names a colour space after it; a grey picture with more than one
/// sample in a unit is smaller by a block than the largest there is; the first coefficients stay in
/// 32 bits, where they are not given bit by bit.
pub open spec fn frame_fits(b: Seq<u8>, at: Seq<usize>, i: int) -> bool {
    let p = at[i] as int;
    let n = b[p + 9];
    is_whole_frame(b, p) && n > 0 && across_of(b, p, 0) > 0 && down_of(b, p, 0) > 0 ==> {
        &&& n != 2
        &&& n > 1 ==> down_of(b, p, 0) <= 2
        &&& forall|c: int| 0 <= c < n ==> #[trigger] is_within_first(b, p, c)
        &&& forall|j: int| i < j < at.len() ==> b[#[trigger] at[j] + 1] != 0xee
        &&& n == 1 && b[p + 11] != 0x11 ==> pair_at(b, p + 5) <= 65_528 && pair_at(b, p + 7)
            <= 65_528
        &&& b[p + 1] != 0xc2 ==> forall|c: int|
            0 <= c < n ==> #[trigger] dc_fits(
                b,
                p,
                c,
                at.last() as int,
                all_entries(b, at),
                scan_categories(b, at),
            )
    }
}

/// Whether a JPEG picture can be decoded within the ranges of its decoder.
pub open spec fn jpeg_fits(b: Seq<u8>) -> bool {
    let at = segments(b, 2);
    &&& b.len() <= u32::MAX
    &&& at.len() > 0 && b[at.last() + 1] == 0xda ==> {
        &&& !stands_after(b, at.last() as int, 0xee)
        &&& forall|i: int|
            0 <= i < at.len() && #[trigger] is_frame(b, at[i] as int) ==> frame_fits(b, at, i)
    }
}

/// How many units a side takes.
fn units_of(side: u16, samples: u8) -> (r: u64)
    requires
        0 < samples,
    ensures
        r == units(side as int, samples as int),
        r <= 8192,
{
    let d: u64 = 8 * samples as u64;
    let r: u64 = (side as u64 + d - 1) / d;
    assert(r <= 8192) by (nonlinear_arith)
        requires
            r == (side + d - 1) / (d as int),
            d >= 8,
            side <= 65_535,
    ;
    r
}

/// How many blocks the component `c` of the frame at `p` has.
fn count_blocks(b: &[u8], p: usize, c: usize) -> (r: u64)
    requires
        is_whole_frame(b@, p as int),
        c < b@[p + 9],
        across_of(b@, p as int, 0) > 0,
        down_of(b@, p as int, 0) > 0,
    ensures
        r == blocks_of(b@, p as int, c as int),
        r <= 15_099_494_400,
{
    let len: usize = b.len();
    let first: u8 = b[p + 11];
    let own: u8 = b[p + 11 + 3 * c];
    let wide: u64 = units_of(pair_of(b, p + 7), first / 16);
    let high: u64 = units_of(pair_of(b, p + 5), first % 16);
    let x: u64 = (own / 16) as u64;
    let y: u64 = (own % 16) as u64;
    assert(wide * x <= 8192 * 15 && high * y <= 8192 * 15) by (nonlinear_arith)
        requires
            wide <= 8192,
            high <= 8192,
            x <= 15,
            y <= 15,
    ;
    let w: u64 = wide * x;
    let h: u64 = high * y;
    assert(w * h <= 122_880 * 122_880) by (nonlinear_arith)
        requires
            w <= 122_880,
            h <= 122_880,
    ;
    w * h
}

/// Whether the first coefficients of the component `c` of the frame at `p` stay in 32 bits.
fn component_fits(
    b: &[u8],
    p: usize,
    c: usize,
    scan: usize,
    entries: &Vec<u16>,
    most: &Vec<u16>,
) -> (r: bool)
    requires
        is_whole_frame(b@, p as int),
        c < b@[p + 9],
        across_of(b@, p as int, 0) > 0,
        down_of(b@, p as int, 0) > 0,
        b@.len() <= u32::MAX,
        scan <= b@.len(),
        entries@.len() == 4,
        most@.len() == 4,
    ensures
        r == dc_fits(b@, p as int, c as int, scan as int, entries@, most@),
{
    let len: usize = b.len();
    let table: usize = b[p + 12 + 3 * c] as usize;
    if table >= 4 {
        return true;
    }
    let blocks: u128 = count_blocks(b, p, c) as u128;
    let step: u128 = step_in_scans(b, scan, b[p + 10 + 3 * c], most);
    let entry: u128 = entries[table] as u128;
    assert(blocks * step <= 15_099_494_400 * 562_932_773_519_460) by (nonlinear_arith)
        requires
            0 <= blocks <= 15_099_494_400,
            0 <= step <= 562_932_773_519_460,
    ;
    let far: u128 = blocks * step;
    assert(far * entry <= 15_099_494_400 * 562_932_773_519_460 * 65_535) by (nonlinear_arith)
        requires
            0 <= far <= 15_099_494_400 * 562_932_773_519_460,
            0 <= entry <= 65_535,
    ;
    far * entry <= 0x7fff_ffff - 1028
}

/// Whether the frame that the segment `i` of `at` begins can be decoded within the ranges.
fn frame_ok(b: &[u8], at: &Vec<usize>, i: usize, entries: &Vec<u16>, most: &Vec<u16>) -> (r: bool)
    requires
        b@.len() <= u32::MAX,
        i < at@.len(),
        forall|k: int| 0 <= k < at@.len() ==> #[trigger] at@[k] + 3 < b@.len(),
        entries@ == all_entries(b@, at@),
        most@ == scan_categories(b@, at@),
        entries@.len() == 4,
        most@.len() == 4,
    ensures
        r == frame_fits(b@, at@, i as int),
{
    let len: usize = b.len();
    let p: usize = at[i];
    if len - p <= 9 {
        return true;
    }
    let n: usize = b[p + 9] as usize;
    if len - p <= 9 + 3 * n || n == 0 {
        return true;
    }
    let first: u8 = b[p + 11];
    if first / 16 == 0 || first % 16 == 0 {
        return true;
    }
    if n == 2 || (n > 1 && first % 16 > 2) {
        return false;
    }
    let m: usize = at.len();
    for j in i + 1..m
        invariant
            len == b@.len(),
            m == at@.len(),
            i < m,
            n == b@[p + 9],
            p == at@[i as int],
            forall|k: int| 0 <= k < at@.len() ==> #[trigger] at@[k] + 3 < b@.len(),
            is_whole_frame(b@, p as int) && n > 0,
            across_of(b@, p as int, 0) > 0 && down_of(b@, p as int, 0) > 0,
            forall|k: int| i < k < j ==> b@[#[trigger] at@[k] + 1] != 0xee,
    {
        if b[at[j] + 1] == 0xee {
            assert(b@[at@[j as int] + 1] == 0xee);
            return false;
        }
    }
    if n == 1 && first != 0x11 && (pair_of(b, p + 5) > 65_528 || pair_of(b, p + 7) > 65_528) {
        return false;
    }
    let whole: bool = b[p + 1] != 0xc2;
    let scan: usize = at[m - 1];
    for c in 0..n
        invariant
            len == b@.len(),
            len <= u32::MAX,
            m == at@.len(),
            i < m,
            n == b@[p + 9],
            p == at@[i as int],
            first == b@[p + 11],
            whole == (b@[p + 1] != 0xc2),
            scan == at@.last(),
            scan < len,
            entries@ == all_entries(b@, at@),
            most@ == scan_categories(b@, at@),
            entries@.len() == 4,
            most@.len() == 4,
            is_whole_frame(b@, p as int) && n > 0,
            across_of(b@, p as int, 0) > 0 && down_of(b@, p as int, 0) > 0,
            forall|k: int| 0 <= k < c ==> #[trigger] is_within_first(b@, p as int, k),
            whole ==> forall|k: int|
                0 <= k < c ==> #[trigger] dc_fits(
                    b@,
                    p as int,
                    k,
                    scan as int,
                    entries@,
                    most@,
                ),
    {
        let own: u8 = b[p + 11 + 3 * c];
        let within: bool = own / 16 <= first / 16 && own % 16 <= first % 16;
        assert(within == is_within_first(b@, p as int, c as int));
        if !within {
            return false;
        }
        if whole && !component_fits(b, p, c, scan, entries, most) {
            return false;
        }
    }
    true
}

/// Whether a JPEG picture can be decoded within the ranges of its decoder.
fn jpeg_ok(b: &[u8]) -> (r: bool)
    ensures
        r == jpeg_fits(b@),
{
    if b.len() as u64 > u32::MAX as u64 {
        return false;
    }
    let at = segments_of(b);
    let n: usize = at.len();
    if n == 0 || b[at[n - 1] + 1] != 0xda {
        return true;
    }
    let scan: usize = at[n - 1];
    if is_after(b, scan, 0xee) {
        return false;
    }
    let (entries, given) = tables_of(b, &at);
    let most: Vec<u16> = if is_after(b, scan, 0xc4) {
        vec![15, 15, 15, 15]
    } else {
        given
    };
    assert(most@ =~= scan_categories(b@, at@));
    for i in 0..n
        invariant
            b@.len() <= u32::MAX,
            n == at@.len(),
            at@ == segments(b@, 2),
            b@[at@.last() + 1] == 0xda,
            forall|k: int| 0 <= k < at@.len() ==> #[trigger] at@[k] + 3 < b@.len(),
            entries@ == all_entries(b@, at@),
            most@ == scan_categories(b@, at@),
            entries@.len() == 4,
            most@.len() == 4,
            forall|k: int|
                0 <= k < i && #[trigger] is_frame(b@, at@[k] as int) ==> frame_fits(b@, at@, k),
    {
        let kind: u8 = b[at[i] + 1];
        if 0xc0 <= kind && kind <= 0xc2 && !frame_ok(b, &at, i, &entries, &most) {
            assert(is_frame(b@, at@[i as int] as int));
            return false;
        }
    }
    true
}

// ---------------------------------------------------------------------------------------------
// PNG and WebP
// ---------------------------------------------------------------------------------------------
/// How many bytes the chunk at `p` holds, as a PNG picture says it.
pub open spec fn chunk_size(b: Seq<u8>, p: int) -> int {
    pair_at(b, p) * 65_536 + pair_at(b, p + 2)
}

/// Whether each palette among the chunks from `p` on, up to the pixels, holds whole colours of three
/// bytes.
pub open spec fn palettes_fit(b: Seq<u8>, p: int) -> bool
    decreases b.len() - p,
{
    if p + 8 > b.len() || word_at(b, p + 4, (0x49, 0x44, 0x41, 0x54)) {
        true
    } else if word_at(b, p + 4, (0x50, 0x4c, 0x54, 0x45)) && chunk_size(b, p) % 3 != 0 {
        false
    } else {
        p + 12 + chunk_size(b, p) >= b.len() || palettes_fit(b, p + 12 + chunk_size(b, p))
    }
}

/// Whether each palette of a PNG picture holds whole colours.
fn palettes_ok(b: &[u8]) -> (r: bool)
    ensures
        r == palettes_fit(b@, 8),
{
    let n: usize = b.len();
    let mut p: usize = 8;
    while p < n && n - p >= 8
        invariant
            n == b@.len(),
            palettes_fit(b@, 8) == palettes_fit(b@, p as int),
        decreases n - p,
    {
        if has_word(b, p + 4, (0x49, 0x44, 0x41, 0x54)) {
            return true;
        }
        let size: u64 = pair_of(b, p) as u64 * 65_536 + pair_of(b, p + 2) as u64;
        if has_word(b, p + 4, (0x50, 0x4c, 0x54, 0x45)) && size % 3 != 0 {
            return false;
        }
        if (n - p) as u64 <= 12 + size {
            return true;
        }
        p = p + 12 + size as usize;
    }
    true
}

/// Whether what stands at `p` in a WebP picture is coded without loss, or is a frame of a film. Of
/// a chunk that says how opaque the pixels are, the byte after its size tells how it is coded.
pub open spec fn is_lossless_at(b: Seq<u8>, p: int) -> bool {
    ||| word_at(b, p, (0x56, 0x50, 0x38, 0x4c))
    ||| word_at(b, p, (0x41, 0x4e, 0x4d, 0x46))
    ||| word_at(b, p, (0x41, 0x4c, 0x50, 0x48)) && p + 8 < b.len() && b[p + 8] % 4 == 1
}

/// Whether nothing in a WebP picture is coded without loss, and it is no film.
pub open spec fn is_lossy(b: Seq<u8>) -> bool {
    forall|p: int| 0 <= p < b.len() ==> !#[trigger] is_lossless_at(b, p)
}

/// Whether nothing in a WebP picture is coded without loss, and it is no film.
fn lossy(b: &[u8]) -> (r: bool)
    ensures
        r == is_lossy(b@),
{
    let n: usize = b.len();
    for p in 0..n
        invariant
            n == b@.len(),
            forall|k: int| 0 <= k < p ==> !#[trigger] is_lossless_at(b@, k),
    {
        if has_word(b, p, (0x56, 0x50, 0x38, 0x4c)) || has_word(b, p, (0x41, 0x4e, 0x4d, 0x46)) || (
        has_word(b, p, (0x41, 0x4c, 0x50, 0x48)) && n - p > 8 && b[p + 8] % 4 == 1) {
            assert(is_lossless_at(b@, p as int));
            return false;
        }
    }
    true
}

/// Whether bytes begin as a JPEG picture does.
pub open spec fn is_jpeg(b: Seq<u8>) -> bool {
    b.len() >= 3 && b[0] == 0xff && b[1] == 0xd8 && b[2] == 0xff
}

/// Whether bytes begin as a PNG picture does whose pixels are places in a palette.
pub open spec fn is_indexed_png(b: Seq<u8>) -> bool {
    word_at(b, 0, (0x89, 0x50, 0x4e, 0x47)) && b.len() > 25 && b[25] == 3
}

/// Whether bytes begin as a WebP picture does.
pub open spec fn is_webp(b: Seq<u8>) -> bool {
    word_at(b, 0, (0x52, 0x49, 0x46, 0x46)) && word_at(b, 8, (0x57, 0x45, 0x42, 0x50))
}

/// Whether the decoder of a picture with these bytes keeps its sums and places within their ranges.
///
/// Of the crates behind `image::load_from_memory`, `zune_jpeg` multiplies first coefficients in 32
/// bits and sizes its buffers by the first component; `png` copies the colours of a palette three
/// bytes at a time; `image_webp` adds up the code lengths of what is coded without loss in 16 bits,
/// before it looks whether they are those of a code, and takes the size of a film's frame on faith.
/// Every GIF picture is decoded within the ranges, and bytes that are no picture are refused there.
pub open spec fn is_tame(b: Seq<u8>) -> bool {
    &&& is_jpeg(b) ==> jpeg_fits(b)
    &&& is_indexed_png(b) ==> palettes_fit(b, 8)
    &&& is_webp(b) ==> is_lossy(b)
}

/// Whether the decoder of a picture with these bytes keeps its sums and places within their ranges.
pub fn tame(bytes: &[u8]) -> (r: bool)
    ensures
        r == is_tame(bytes@),
{
    let n: usize = bytes.len();
    if n >= 3 && bytes[0] == 0xff && bytes[1] == 0xd8 && bytes[2] == 0xff {
        jpeg_ok(bytes)
    } else if has_word(bytes, 0, (0x89, 0x50, 0x4e, 0x47)) && n > 25 && bytes[25] == 3 {
        palettes_ok(bytes)
    } else if has_word(bytes, 0, (0x52, 0x49, 0x46, 0x46)) && has_word(
        bytes,
        8,
        (0x57, 0x45, 0x42, 0x50),
    ) {
        lossy(bytes)
    } else {
        true
    }
}

// ---------------------------------------------------------------------------------------------
// Laws
// ---------------------------------------------------------------------------------------------
/// Whatever does not begin as a JPEG or a WebP picture, nor as a PNG picture with a palette, can be
/// decoded within the ranges.
pub proof fn law_other_pictures(b: Seq<u8>)
    requires
        b.len() > 25,
        !(b[0] == 0xff && b[1] == 0xd8 && b[2] == 0xff),
        !(b[0] == 0x52 && b[1] == 0x49 && b[2] == 0x46 && b[3] == 0x46),
        !(b[0] == 0x89 && b[25] == 3),
    ensures
        is_tame(b),
{
}

/// A JPEG picture without a scan, or without a frame before it, is left to its decoder, which refuses
/// it; and so is one that is given bit by bit, where its frame is laid out in the usual way.
pub proof fn law_jpeg_pictures(b: Seq<u8>)
    requires
        b.len() <= u32::MAX,
    ensures
        segments(b, 2).len() == 0 ==> jpeg_fits(b),
        segments(b, 2).len() > 0 && b[segments(b, 2).last() + 1] != 0xda ==> jpeg_fits(b),
        segments(b, 2).len() > 0 && !stands_after(b, segments(b, 2).last() as int, 0xee) && (forall|
            i: int,
        |
            0 <= i < segments(b, 2).len() ==> !(0xc0 <= b[#[trigger] segments(b, 2)[i] + 1] <= 0xc2))
            ==> jpeg_fits(b),
{
}

/// A WebP picture is decoded where nowhere in it one of the words stands that begin what is coded
/// without loss, and it is no film.
pub proof fn law_webp_pictures(b: Seq<u8>)
    ensures
        is_lossy(b) ==> forall|p: int|
            0 <= p && p + 4 <= b.len() ==> !(#[trigger] b[p] == 0x56 && b[p + 1] == 0x50 && b[p + 2] == 0x38
                && b[p + 3] == 0x4c),
        (forall|p: int|
            0 <= p && p + 4 <= b.len() ==> !(#[trigger] b[p] == 0x56 && b[p + 1] == 0x50 && b[p + 2] == 0x38
                && b[p + 3] == 0x4c) && !(b[p] == 0x41 && b[p + 1] == 0x4e && b[p + 2] == 0x4d && b[p
                + 3] == 0x46) && !(b[p] == 0x41 && b[p + 1] == 0x4c && b[p + 2] == 0x50 && b[p + 3]
                == 0x48)) ==> is_lossy(b),
{
    if is_lossy(b) {
        assert forall|p: int| 0 <= p && p + 4 <= b.len() implies !(#[trigger] b[p] == 0x56 && b[p + 1]
            == 0x50 && b[p + 2] == 0x38 && b[p + 3] == 0x4c) by {
            assert(!is_lossless_at(b, p));
        }
    }
    if forall|p: int|
        0 <= p && p + 4 <= b.len() ==> !(#[trigger] b[p] == 0x56 && b[p + 1] == 0x50 && b[p + 2] == 0x38
            && b[p + 3] == 0x4c) && !(b[p] == 0x41 && b[p + 1] == 0x4e && b[p + 2] == 0x4d && b[p + 3]
            == 0x46) && !(b[p] == 0x41 && b[p + 1] == 0x4c && b[p + 2] == 0x50 && b[p + 3] == 0x48) {
        assert forall|p: int| 0 <= p < b.len() implies !#[trigger] is_lossless_at(b, p) by {
            if p + 4 <= b.len() {
                let x = b[p];
            }
        }
    }
}

} // verus!
