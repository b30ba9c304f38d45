//! The files of a server and its backups, as the panel lists them.
use vstd::prelude::*;

use crate::numbers::{decimal, decimal_of, two_digits, two_digits_of};
use crate::sorting::{goes_before, law_order, order_of, places, sorted_order};
use crate::text::{cat2, cat4, chars_of, ends_with, finishes_with, pieces};
use crate::unicode::{lowercase, lowers_as_ascii, to_lowercase};

verus! {

/// A file or a folder.
pub struct Entry {
    pub name: String,
    pub is_dir: bool,
    pub size: u64,
}

/// What is known of a file or a folder.
pub struct EntryV {
    pub name: Seq<char>,
    pub is_dir: bool,
    pub size: u64,
}

impl View for Entry {
    type V = EntryV;

    open spec fn view(&self) -> EntryV {
        EntryV { name: self.name@, is_dir: self.is_dir, size: self.size }
    }
}

/// What is known of each of `list`.
pub open spec fn entries(list: Seq<Entry>) -> Seq<EntryV> {
    Seq::new(list.len(), |i: int| list[i]@)
}

/// What a file is ordered by: folders first, then by the name in lower case.
pub open spec fn file_key(e: EntryV) -> Seq<char> {
    if e.is_dir {
        seq!['0'] + lowercase(e.name)
    } else {
        seq!['1'] + lowercase(e.name)
    }
}

/// The keys of `list`.
pub open spec fn file_keys(list: Seq<EntryV>) -> Seq<Seq<char>> {
    Seq::new(list.len(), |i: int| file_key(list[i]))
}

/// `list` in the order `o`.
pub open spec fn arranged(list: Seq<EntryV>, o: Seq<int>) -> Seq<EntryV> {
    Seq::new(o.len(), |i: int| list[o[i]])
}

/// `list` as the panel shows it.
pub open spec fn files_shown(list: Seq<EntryV>) -> Seq<EntryV> {
    arranged(list, order_of(file_keys(list), list.len(), false))
}

/// The names of `list`.
pub open spec fn names_of(list: Seq<EntryV>) -> Seq<Seq<char>> {
    Seq::new(list.len(), |i: int| list[i].name)
}

/// The backups among `list`: files whose name ends in `.zip`.
pub open spec fn archives(list: Seq<EntryV>) -> Seq<EntryV>
    decreases list.len(),
{
    if list.len() == 0 {
        Seq::empty()
    } else {
        let before = archives(list.drop_last());
        if ends_with(list.last().name, ".zip"@) && !list.last().is_dir {
            before.push(list.last())
        } else {
            before
        }
    }
}

/// The backups as the panel shows them: the last in the order of their names first.
pub open spec fn backups_shown(list: Seq<EntryV>) -> Seq<EntryV> {
    let found = archives(list);
    arranged(found, order_of(names_of(found), found.len(), true))
}

/// A copy of `e`.
fn copy_of(e: &Entry) -> (r: Entry)
    ensures
        r@ == e@,
{
    Entry { name: e.name.clone(), is_dir: e.is_dir, size: e.size }
}

/// `list` in the order `order`.
fn arrange(list: &Vec<Entry>, order: &Vec<usize>) -> (r: Vec<Entry>)
    requires
        forall|i: int| 0 <= i < order@.len() ==> #[trigger] order@[i] < list@.len(),
    ensures
        entries(r@) == arranged(entries(list@), places(order@)),
{
    let mut out: Vec<Entry> = Vec::new();
    let n: usize = order.len();
    let ghost want = arranged(entries(list@), places(order@));
    assert(entries(out@) == want.take(0));
    for i in 0..n
        invariant
            n == order@.len(),
            forall|i: int| 0 <= i < order@.len() ==> #[trigger] order@[i] < list@.len(),
            want == arranged(entries(list@), places(order@)),
            entries(out@) == want.take(i as int),
    {
        let ghost e0 = entries(out@);
        let e = copy_of(&list[order[i]]);
        let ghost v = e@;
        out.push(e);
        assert(entries(out@) == e0.push(v));
        assert(want.take(i + 1) == want.take(i as int).push(want[i as int]));
    }
    assert(want.take(n as int) == want);
    out
}

/// What a file is ordered by.
fn key_of(e: &Entry) -> (r: Vec<char>)
    ensures
        r@ == file_key(e@),
        lowers_as_ascii(e@.name),
{
    let low = to_lowercase(e.name.as_str());
    let mut s = String::new();
    if e.is_dir {
        s.push('0');
    } else {
        s.push('1');
    }
    s.append(low.as_str());
    chars_of(s.as_str())
}

/// The files of a server: folders first, each in the order of the names in lower case.
pub fn get_server_files_of(list: &Vec<Entry>) -> (r: Vec<Entry>)
    ensures
        entries(r@) == files_shown(entries(list@)),
        forall|i: int| 0 <= i < list@.len() ==> lowers_as_ascii((#[trigger] list@[i])@.name),
{
    let mut keys: Vec<Vec<char>> = Vec::new();
    let n: usize = list.len();
    let ghost want = file_keys(entries(list@));
    assert(pieces(keys@) == want.take(0));
    for i in 0..n
        invariant
            n == list@.len(),
            want == file_keys(entries(list@)),
            pieces(keys@) == want.take(i as int),
            forall|j: int| 0 <= j < i ==> lowers_as_ascii((#[trigger] list@[j])@.name),
    {
        let ghost k0 = pieces(keys@);
        let k = key_of(&list[i]);
        let ghost v = k@;
        keys.push(k);
        assert(pieces(keys@) == k0.push(v));
        assert(want.take(i + 1) == want.take(i as int).push(want[i as int]));
    }
    assert(want.take(n as int) == want);
    assert(keys@.len() == n) by {
        assert(pieces(keys@).len() == n);
    }
    let order = sorted_order(&keys, false);
    assert forall|i: int| 0 <= i < order@.len() implies #[trigger] order@[i] < list@.len() by {
        assert(places(order@)[i] == order@[i] as int);
    }
    arrange(list, &order)
}

/// The backups among `list`, the last in the order of their names first.
pub fn get_backups_of(list: &Vec<Entry>) -> (r: Vec<Entry>)
    ensures
        entries(r@) == backups_shown(entries(list@)),
{
    let mut found: Vec<Entry> = Vec::new();
    let mut keys: Vec<Vec<char>> = Vec::new();
    let n: usize = list.len();
    let ghost all = entries(list@);
    assert(entries(found@) == archives(all.take(0)));
    assert(pieces(keys@) == names_of(entries(found@)));
    for i in 0..n
        invariant
            n == list@.len(),
            all == entries(list@),
            entries(found@) == archives(all.take(i as int)),
            pieces(keys@) == names_of(entries(found@)),
    {
        assert(all.take(i + 1).drop_last() == all.take(i as int));
        assert(all.take(i + 1).last() == list@[i as int]@);
        if finishes_with(list[i].name.as_str(), ".zip") && !list[i].is_dir {
            let ghost f0 = entries(found@);
            let ghost k0 = pieces(keys@);
            let e = copy_of(&list[i]);
            let ghost v = e@;
            keys.push(chars_of(e.name.as_str()));
            found.push(e);
            assert(entries(found@) == f0.push(v));
            assert(pieces(keys@) == k0.push(v.name));
            assert(names_of(f0.push(v)) == names_of(f0).push(v.name));
        }
    }
    assert(all.take(n as int) == all);
    assert(keys@.len() == found@.len()) by {
        assert(pieces(keys@).len() == names_of(entries(found@)).len());
    }
    let order = sorted_order(&keys, true);
    assert forall|i: int| 0 <= i < order@.len() implies #[trigger] order@[i] < found@.len() by {
        assert(places(order@)[i] == order@[i] as int);
    }
    arrange(&found, &order)
}

/// Folders are listed before files, and nothing is lost.
pub proof fn law_folders_come_first(list: Seq<EntryV>)
    ensures
        files_shown(list).len() == list.len(),
        forall|i: int, j: int|
            0 <= i < j < list.len() && (#[trigger] files_shown(list)[j]).is_dir ==> (
            #[trigger] files_shown(list)[i]).is_dir,
        forall|k: int| 0 <= k < list.len() ==> files_shown(list).contains(#[trigger] list[k]),
{
    let keys = file_keys(list);
    let n = list.len();
    law_order(keys, n, false);
    let o = order_of(keys, n, false);
    let out = files_shown(list);
    assert forall|i: int, j: int| 0 <= i < j < n && (#[trigger] out[j]).is_dir implies (
    #[trigger] out[i]).is_dir by {
        assert(!goes_before(keys[o[j]], keys[o[i]], false));
        assert(keys[o[j]] == file_key(list[o[j]]));
        assert(keys[o[i]] == file_key(list[o[i]]));
        assert(keys[o[j]].first() == '0');
        if !out[i].is_dir {
            assert(keys[o[i]].first() == '1');
        }
    }
    assert forall|k: int| 0 <= k < n implies out.contains(#[trigger] list[k]) by {
        let i = crate::sorting::lemma_place_found(o, n, k);
        assert(out[i] == list[k]);
    }
}

// ---------------------------------------------------------------------------------------------
// Labels
// ---------------------------------------------------------------------------------------------
/// How long a server has been up: hours and minutes, minutes and seconds, or seconds.
pub open spec fn uptime(secs: u64) -> Seq<char> {
    let h = (secs / 3600) as nat;
    let m = ((secs % 3600) / 60) as nat;
    let s = (secs % 60) as nat;
    if h > 0 {
        decimal(h) + "h "@ + two_digits(m) + "m"@
    } else if m > 0 {
        decimal(m) + "m "@ + two_digits(s) + "s"@
    } else {
        decimal(s) + "s"@
    }
}

/// How long a server has been up.
pub fn format_uptime(secs: u64) -> (r: String)
    ensures
        r@ == uptime(secs),
{
    let h: u64 = secs / 3600;
    let m: u64 = (secs % 3600) / 60;
    let s: u64 = secs % 60;
    if h > 0 {
        cat4(decimal_of(h).as_str(), "h ", two_digits_of(m).as_str(), "m")
    } else if m > 0 {
        cat4(decimal_of(m).as_str(), "m ", two_digits_of(s).as_str(), "s")
    } else {
        cat2(decimal_of(s).as_str(), "s")
    }
}

/// The unit in which a number is shown.
#[derive(Clone, Copy, Debug, PartialEq, Eq, Structural)]
pub enum Scale {
    One,
    Thousands,
    Millions,
}

/// The unit in which a size in bytes is shown: megabytes above one, kilobytes above one, else
/// bytes.
pub fn size_scale(bytes: u64) -> (r: Scale)
    ensures
        r == (if bytes > 1_048_576 {
            Scale::Millions
        } else if bytes > 1024 {
            Scale::Thousands
        } else {
            Scale::One
        }),
{
    if bytes > 1_048_576 {
        Scale::Millions
    } else if bytes > 1024 {
        Scale::Thousands
    } else {
        Scale::One
    }
}

/// The unit in which a number of downloads is shown.
pub fn count_scale(count: u64) -> (r: Scale)
    ensures
        r == (if count >= 1_000_000 {
            Scale::Millions
        } else if count >= 1000 {
            Scale::Thousands
        } else {
            Scale::One
        }),
{
    if count >= 1_000_000 {
        Scale::Millions
    } else if count >= 1000 {
        Scale::Thousands
    } else {
        Scale::One
    }
}

/// The files are listed folders first; folders, and files, go up by their names in lower case, and
/// those whose names are the same so stay as they come. Each is listed once.
pub proof fn law_order_of_files(list: Seq<EntryV>)
    ensures
        ({
            let out = files_shown(list);
            let o = order_of(file_keys(list), list.len(), false);
            &&& out.len() == list.len() && o.len() == list.len()
            &&& forall|i: int| 0 <= i < o.len() ==> 0 <= #[trigger] o[i] < list.len()
            &&& forall|i: int, j: int| 0 <= i < j < o.len() ==> #[trigger] o[i] != #[trigger] o[j]
            &&& forall|i: int| 0 <= i < out.len() ==> #[trigger] out[i] == list[o[i]]
            &&& forall|i: int, j: int|
                0 <= i < j < out.len() && (#[trigger] out[i]).is_dir == (#[trigger] out[j]).is_dir
                    ==> !crate::text::precedes(lowercase(out[j].name), lowercase(out[i].name))
            &&& forall|i: int, j: int|
                0 <= i < j < out.len() && (#[trigger] out[j]).is_dir ==> (#[trigger] out[i]).is_dir
        }),
{
    law_folders_come_first(list);
    let keys = file_keys(list);
    assert(keys.len() == list.len());
    crate::sorting::law_each_once_in_order(keys, false);
    let o = order_of(keys, list.len(), false);
    let out = files_shown(list);
    assert forall|i: int, j: int|
        0 <= i < j < out.len() && (#[trigger] out[i]).is_dir == (#[trigger] out[j]).is_dir
            implies !crate::text::precedes(lowercase(out[j].name), lowercase(out[i].name)) by {
        assert(!crate::text::precedes(keys[o[j]], keys[o[i]]));
        assert(keys[o[j]] == file_key(out[j]) && keys[o[i]] == file_key(out[i]));
        let p = if out[i].is_dir {
            seq!['0']
        } else {
            seq!['1']
        };
        crate::text::lemma_precedes_after(p, lowercase(out[j].name), lowercase(out[i].name));
    }
}

/// The backups are the files whose names end in `.zip`, all of them and nothing else, each once; they
/// go down by their names.
pub proof fn law_order_of_backups(list: Seq<EntryV>)
    ensures
        ({
            let found = list.filter(
                |e: EntryV|
                    !e.is_dir && e.name.len() >= 4 && e.name.skip(e.name.len() - 4) == seq![
                        '.',
                        'z',
                        'i',
                        'p',
                    ],
            );
            let out = backups_shown(list);
            let o = order_of(names_of(found), found.len(), true);
            &&& out.len() == found.len() && o.len() == found.len()
            &&& forall|i: int| 0 <= i < o.len() ==> 0 <= #[trigger] o[i] < found.len()
            &&& forall|i: int, j: int| 0 <= i < j < o.len() ==> #[trigger] o[i] != #[trigger] o[j]
            &&& forall|i: int| 0 <= i < out.len() ==> #[trigger] out[i] == found[o[i]]
            &&& forall|i: int, j: int|
                0 <= i < j < out.len() ==> !crate::text::precedes(
                    (#[trigger] out[i]).name,
                    (#[trigger] out[j]).name,
                )
        }),
{
    reveal_strlit(".zip");
    assert(".zip"@ =~= seq!['.', 'z', 'i', 'p']);
    let fit = |e: EntryV|
        !e.is_dir && e.name.len() >= 4 && e.name.skip(e.name.len() - 4) == seq!['.', 'z', 'i', 'p'];
    lemma_archives(list, fit);
    let found = archives(list);
    let keys = names_of(found);
    assert(keys.len() == found.len());
    crate::sorting::law_each_once_in_order(keys, true);
    let o = order_of(keys, found.len(), true);
    let out = backups_shown(list);
    assert forall|i: int, j: int| 0 <= i < j < out.len() implies !crate::text::precedes(
        (#[trigger] out[i]).name,
        (#[trigger] out[j]).name,
    ) by {
        assert(!crate::text::precedes(keys[o[i]], keys[o[j]]));
    }
}

proof fn lemma_archives(list: Seq<EntryV>, fit: spec_fn(EntryV) -> bool)
    requires
        forall|e: EntryV| #[trigger] fit(e) <==> ends_with(e.name, ".zip"@) && !e.is_dir,
    ensures
        archives(list) == list.filter(fit),
    decreases list.len(),
{
    reveal(Seq::filter);
    if list.len() > 0 {
        lemma_archives(list.drop_last(), fit);
        assert(fit(list.last()) <==> ends_with(list.last().name, ".zip"@) && !list.last().is_dir);
    }
}

/// A time is shown in hours and minutes from an hour on, in minutes and seconds from a minute on, and
/// else in seconds; the smaller number has two digits.
pub proof fn law_uptime(h: u64, m: u64, s: u64)
    requires
        m < 60,
        s < 60,
        h < 1_000_000_000_000,
    ensures
        h > 0 ==> uptime((3600 * h + 60 * m + s) as u64) == decimal(h as nat) + seq![
            'h',
            ' ',
            (48 + m / 10) as char,
            (48 + m % 10) as char,
            'm',
        ],
        h == 0 && m > 0 ==> uptime((60 * m + s) as u64) == decimal(m as nat) + seq![
            'm',
            ' ',
            (48 + s / 10) as char,
            (48 + s % 10) as char,
            's',
        ],
        uptime(s) == decimal(s as nat) + seq!['s'],
{
    reveal_strlit("h ");
    reveal_strlit("m ");
    reveal_strlit("m");
    reveal_strlit("s");
    crate::numbers::law_two_digits(m as nat);
    crate::numbers::law_two_digits(s as nat);
    let t = (3600 * h + 60 * m + s) as u64;
    assert(t / 3600 == h && (t % 3600) / 60 == m && t % 60 == s);
    let u = (60 * m + s) as u64;
    assert(u / 3600 == 0 && (u % 3600) / 60 == m && u % 60 == s);
    assert(s / 3600 == 0 && (s % 3600) / 60 == 0 && s % 60 == s);
    assert(uptime(s) =~= decimal(s as nat) + seq!['s']);
    if h > 0 {
        assert(uptime(t) =~= decimal(h as nat) + seq![
            'h',
            ' ',
            (48 + m / 10) as char,
            (48 + m % 10) as char,
            'm',
        ]);
    }
    if m > 0 {
        assert(uptime(u) =~= decimal(m as nat) + seq![
            'm',
            ' ',
            (48 + s / 10) as char,
            (48 + s % 10) as char,
            's',
        ]);
    }
}

/// Files are seen one by one, with name, kind and size.
pub proof fn law_rows_of_files(list: Seq<Entry>)
    ensures
        entries(list).len() == list.len(),
        forall|i: int|
            0 <= i < list.len() ==> {
                let e = #[trigger] entries(list)[i];
                e.name == list[i].name@ && e.is_dir == list[i].is_dir && e.size == list[i].size
            },
{
}

} // verus!
