//! Versions: of the panel itself, and of the servers that can be installed.
use vstd::prelude::*;
use vstd::slice::slice_subrange;

use crate::json::{json_fields, json_views, lemma_json_fields, lemma_json_views, Json, JsonV};
use crate::numbers::{all_digits, decimal, parse_up_to, read_up_to};
use crate::text::{
    cat2, cat3, cat4, chars_of, digit, is_digit, is_white, lemma_split_append, lemma_split_whole,
    pieces, same, split, split_on, stripped_start, strip_start, texts, trim, trimmed,
};

verus! {

// ---------------------------------------------------------------------------------------------
// Versions of the panel
// ---------------------------------------------------------------------------------------------
/// The digits at the start of `s`.
pub open spec fn leading_digits(s: Seq<char>) -> Seq<char>
    decreases s.len(),
{
    if s.len() > 0 && is_digit(s.first()) {
        seq![s.first()] + leading_digits(s.drop_first())
    } else {
        Seq::empty()
    }
}

/// The third number of a version: the digits at the start of its third part, or zero.
pub open spec fn patch_of(parts: Seq<Seq<char>>) -> Option<nat> {
    if parts.len() < 3 {
        Some(0)
    } else {
        let digits = leading_digits(parts[2]);
        if digits.len() == 0 {
            Some(0)
        } else {
            parse_up_to(digits, u64::MAX as nat)
        }
    }
}

/// The three numbers of a version such as `v1.2.3`. Dots and hyphens part them, and the third may
/// be missing.
pub open spec fn version_of(tag: Seq<char>) -> Option<(nat, nat, nat)> {
    let parts = split(strip_start(trim(tag), seq!['v']), seq!['.', '-']);
    if parts.len() < 2 {
        None
    } else {
        match (
            parse_up_to(parts[0], u64::MAX as nat),
            parse_up_to(parts[1], u64::MAX as nat),
            patch_of(parts),
        ) {
            (Some(major), Some(minor), Some(patch)) => Some((major, minor, patch)),
            _ => None,
        }
    }
}

/// Whether the version `b` is later than `a`.
pub open spec fn later(a: (nat, nat, nat), b: (nat, nat, nat)) -> bool {
    a.0 < b.0 || (a.0 == b.0 && (a.1 < b.1 || (a.1 == b.1 && a.2 < b.2)))
}

/// Whether the version that `remote` says is later than the one that `local` says.
pub open spec fn is_newer(local: Seq<char>, remote: Seq<char>) -> bool {
    match (version_of(local), version_of(remote)) {
        (Some(a), Some(b)) => later(a, b),
        _ => false,
    }
}

/// The digits at the start of `cs`.
fn digits_first(cs: &[char]) -> (r: &[char])
    ensures
        r@ == leading_digits(cs@),
{
    let n: usize = cs.len();
    let mut k: usize = 0;
    assert(cs@.take(0) + leading_digits(cs@.skip(0)) == leading_digits(cs@)) by {
        assert(cs@.skip(0) == cs@);
        assert(cs@.take(0) == Seq::<char>::empty());
    }
    while k < n && digit(cs[k])
        invariant
            k <= n,
            n == cs@.len(),
            leading_digits(cs@) == cs@.take(k as int) + leading_digits(cs@.skip(k as int)),
        decreases n - k,
    {
        let ghost rest = cs@.skip(k as int);
        assert(rest.drop_first() == cs@.skip(k + 1));
        assert(cs@.take(k + 1) == cs@.take(k as int) + seq![rest.first()]);
        assert(cs@.take(k as int) + (seq![rest.first()] + leading_digits(cs@.skip(k + 1)))
            == cs@.take(k + 1) + leading_digits(cs@.skip(k + 1)));
        k = k + 1;
    }
    assert(leading_digits(cs@.skip(k as int)) == Seq::<char>::empty());
    assert(cs@.subrange(0, k as int) == cs@.take(k as int) + Seq::<char>::empty());
    slice_subrange(cs, 0, k)
}

/// The three numbers of a version.
pub fn parse_version(tag: &str) -> (r: Option<(u64, u64, u64)>)
    ensures
        match r {
            Some((a, b, c)) => version_of(tag@) == Some((a as nat, b as nat, c as nat)),
            None => version_of(tag@) is None,
        },
{
    let cs = chars_of(tag);
    let v: Vec<char> = vec!['v'];
    let seps: Vec<char> = vec!['.', '-'];
    assert(v@ == seq!['v']);
    assert(seps@ == seq!['.', '-']);
    let parts = split_on(stripped_start(trimmed(&cs), &v), &seps);
    let ghost all = pieces(parts@);
    if parts.len() < 2 {
        return None;
    }
    assert(all[0] == parts@[0]@ && all[1] == parts@[1]@);
    let major: u64 = match read_up_to(&parts[0], u64::MAX) {
        Some(n) => n,
        None => {
            return None;
        },
    };
    let minor: u64 = match read_up_to(&parts[1], u64::MAX) {
        Some(n) => n,
        None => {
            return None;
        },
    };
    let patch: u64 = if parts.len() < 3 {
        0
    } else {
        assert(all[2] == parts@[2]@);
        let digits = digits_first(&parts[2]);
        if digits.len() == 0 {
            0
        } else {
            match read_up_to(digits, u64::MAX) {
                Some(n) => n,
                None => {
                    return None;
                },
            }
        }
    };
    Some((major, minor, patch))
}

/// Whether the version that `remote_tag` says is later than the one that `local` says.
pub fn newer_release(local: &str, remote_tag: &str) -> (r: bool)
    ensures
        r == is_newer(local@, remote_tag@),
{
    match (parse_version(local), parse_version(remote_tag)) {
        (Some((a, b, c)), Some((x, y, z))) => a < x || (a == x && (b < y || (b == y && c < z))),
        _ => false,
    }
}

/// No release is newer than itself, of two releases at most one is the newer one, and what is
/// newer than a newer one is newer.
pub proof fn law_newer_is_an_order(a: Seq<char>, b: Seq<char>, c: Seq<char>)
    ensures
        !is_newer(a, a),
        is_newer(a, b) ==> !is_newer(b, a),
        is_newer(a, b) && is_newer(b, c) ==> is_newer(a, c),
{
}

// ---------------------------------------------------------------------------------------------
// Versions of servers
// ---------------------------------------------------------------------------------------------
/// The first `n` of `s`, or all where there are no more.
pub open spec fn first_of<A>(s: Seq<A>, n: nat) -> Seq<A> {
    if s.len() > n {
        s.take(n as int)
    } else {
        s
    }
}

/// The versions of Purpur: the last 40 of the list, last first.
pub fn purpur_versions(list: &Vec<String>) -> (r: Vec<String>)
    ensures
        texts(r@) == first_of(texts(list@).reverse(), 40),
{
    let n: usize = list.len();
    let ghost all = texts(list@);
    let ghost back = all.reverse();
    let m: usize = if n > 40 {
        40
    } else {
        n
    };
    let mut out: Vec<String> = Vec::new();
    assert(texts(out@) == back.take(0));
    for i in 0..m
        invariant
            m <= n,
            n == list@.len(),
            all == texts(list@),
            back == all.reverse(),
            texts(out@) == back.take(i as int),
    {
        let ghost o0 = texts(out@);
        out.push(list[n - 1 - i].clone());
        assert(texts(out@) == o0.push(all[n - 1 - i]));
        assert(back.take(i + 1) == back.take(i as int).push(back[i as int]));
    }
    assert(back.take(m as int) == first_of(back, 40));
    out
}

/// A version in a list, and whether it is one that is offered.
pub struct Offered {
    pub version: String,
    pub stable: bool,
    pub url: String,
}

/// The versions among `list` that are offered.
pub open spec fn stable_versions(list: Seq<Offered>) -> Seq<Seq<char>>
    decreases list.len(),
{
    if list.len() == 0 {
        Seq::empty()
    } else {
        let before = stable_versions(list.drop_last());
        if list.last().stable {
            before.push(list.last().version@)
        } else {
            before
        }
    }
}

proof fn lemma_stable_prefix(list: Seq<Offered>, i: int)
    requires
        0 <= i <= list.len(),
    ensures
        stable_versions(list.take(i)).len() <= stable_versions(list).len(),
        forall|j: int|
            0 <= j < stable_versions(list.take(i)).len() ==> #[trigger] stable_versions(
                list.take(i),
            )[j] == stable_versions(list)[j],
    decreases list.len(),
{
    if i == list.len() {
        assert(list.take(i) == list);
    } else {
        lemma_stable_prefix(list.drop_last(), i);
        assert(list.drop_last().take(i) == list.take(i));
    }
}

/// The first 40 versions of Vanilla or Fabric that are offered.
pub fn first_stable_versions(list: &Vec<Offered>) -> (r: Vec<String>)
    ensures
        texts(r@) == first_of(stable_versions(list@), 40),
{
    let mut out: Vec<String> = Vec::new();
    let n: usize = list.len();
    assert(texts(out@) == stable_versions(list@.take(0)));
    for i in 0..n
        invariant
            n == list@.len(),
            texts(out@) == stable_versions(list@.take(i as int)),
            out@.len() <= 40,
    {
        assert(list@.take(i + 1).drop_last() == list@.take(i as int));
        if list[i].stable {
            if out.len() == 40 {
                proof {
                    lemma_stable_prefix(list@, i + 1);
                    lemma_stable_prefix(list@, i as int);
                    assert(texts(out@) == first_of(stable_versions(list@), 40));
                }
                return out;
            }
            let ghost o0 = texts(out@);
            out.push(list[i].version.clone());
            assert(texts(out@) == o0.push(list@[i as int].version@));
        }
    }
    assert(list@.take(n as int) == list@);
    assert(texts(out@).len() <= 40);
    out
}

/// Whether a version of Vanilla is offered: it is a release.
pub fn is_release(kind: &str) -> (r: bool)
    ensures
        r == (kind@ == "release"@),
{
    same(kind, "release")
}

/// The texts among `items`.
pub open spec fn texts_among(items: Seq<JsonV>) -> Seq<Seq<char>>
    decreases items.len(),
{
    if items.len() == 0 {
        Seq::empty()
    } else {
        let before = texts_among(items.drop_last());
        match items.last().as_str() {
            Some(s) => before.push(s),
            None => before,
        }
    }
}

/// The texts in the arrays among the values of `fields`.
pub open spec fn paper_list(fields: Seq<(Seq<char>, JsonV)>) -> Seq<Seq<char>>
    decreases fields.len(),
{
    if fields.len() == 0 {
        Seq::empty()
    } else {
        let before = paper_list(fields.drop_last());
        match fields.last().1.as_array() {
            Some(items) => before + texts_among(items),
            None => before,
        }
    }
}

/// The versions of Paper: the first 48 texts in the arrays of its table.
pub open spec fn paper_offers(versions: JsonV) -> Seq<Seq<char>> {
    match versions {
        JsonV::Obj(fields) => first_of(paper_list(fields), 48),
        _ => Seq::empty(),
    }
}

fn add_texts(out: &mut Vec<String>, items: &Vec<Json>)
    ensures
        texts(final(out)@) == texts(old(out)@) + texts_among(json_views(items@)),
{
    let n: usize = items.len();
    let ghost all = json_views(items@);
    let ghost start = texts(out@);
    proof {
        lemma_json_views(items@);
        assert(start + texts_among(all.take(0)) == start);
    }
    for i in 0..n
        invariant
            n == items@.len(),
            all == json_views(items@),
            all.len() == n,
            forall|j: int| 0 <= j < n ==> #[trigger] all[j] == items@[j]@,
            texts(out@) == start + texts_among(all.take(i as int)),
    {
        assert(all.take(i + 1).drop_last() == all.take(i as int));
        assert(all.take(i + 1).last() == items@[i as int]@);
        if let Some(s) = items[i].as_str() {
            let ghost o0 = texts(out@);
            out.push(s.clone());
            assert(texts(out@) == o0.push(s@));
        }
    }
    assert(all.take(n as int) == all);
}

/// The versions of Paper.
pub fn paper_versions(versions: &Json) -> (r: Vec<String>)
    ensures
        texts(r@) == paper_offers(versions@),
{
    let mut out: Vec<String> = Vec::new();
    assert(texts(out@) == Seq::<Seq<char>>::empty());
    match versions {
        Json::Obj(fields) => {
            let n: usize = fields.len();
            let ghost all = json_fields(fields@);
            proof {
                lemma_json_fields(fields@);
                assert(texts(out@) == paper_list(all.take(0)));
            }
            for i in 0..n
                invariant
                    n == fields@.len(),
                    all == json_fields(fields@),
                    all.len() == n,
                    forall|j: int|
                        0 <= j < n ==> #[trigger] all[j] == (fields@[j].0@, fields@[j].1@),
                    texts(out@) == paper_list(all.take(i as int)),
            {
                assert(all.take(i + 1).drop_last() == all.take(i as int));
                assert(all.take(i + 1).last() == (fields@[i as int].0@, fields@[i as int].1@));
                if let Some(items) = fields[i].1.as_array() {
                    add_texts(&mut out, items);
                }
            }
            assert(all.take(n as int) == all);
            let ghost list = texts(out@);
            if out.len() > 48 {
                out.truncate(48);
                assert(texts(out@) == list.take(48));
            }
            out
        },
        _ => out,
    }
}

/// What the panel says once the versions of a software were looked up.
pub fn versions_note(software: &str, found: bool) -> (r: String)
    ensures
        r@ == (if found {
            "Hazır"@
        } else if software@ == "Forge"@ || software@ == "NeoForge"@ {
            "Forge ve NeoForge bu sürümde kurulmuyor. Fabric kullan."@
        } else {
            "Sürüm listesi alınamadı."@
        }),
{
    if found {
        "Hazır".to_owned()
    } else if same(software, "Forge") || same(software, "NeoForge") {
        "Forge ve NeoForge bu sürümde kurulmuyor. Fabric kullan.".to_owned()
    } else {
        "Sürüm listesi alınamadı.".to_owned()
    }
}

// ---------------------------------------------------------------------------------------------
// Where servers are downloaded from
// ---------------------------------------------------------------------------------------------
/// Where the archive of a software comes from.
#[derive(Clone, Copy, Debug, PartialEq, Eq, Structural)]
pub enum Source {
    Purpur,
    Paper,
    Fabric,
    Vanilla,
    Unknown,
}

/// Where the archive of a software comes from.
pub fn source_of(software: &str) -> (r: Source)
    ensures
        r == (if software@ == "Purpur"@ {
            Source::Purpur
        } else if software@ == "Paper"@ {
            Source::Paper
        } else if software@ == "Fabric"@ {
            Source::Fabric
        } else if software@ == "Vanilla"@ {
            Source::Vanilla
        } else {
            Source::Unknown
        }),
{
    if same(software, "Purpur") {
        Source::Purpur
    } else if same(software, "Paper") {
        Source::Paper
    } else if same(software, "Fabric") {
        Source::Fabric
    } else if same(software, "Vanilla") {
        Source::Vanilla
    } else {
        Source::Unknown
    }
}

/// What is said of a software that cannot be installed.
pub fn unknown_software(software: &str) -> (r: String)
    ensures
        r@ == software@
            + " jar indirmesi bu sürümde yok. Vanilla, Paper, Purpur veya Fabric seç."@,
{
    cat2(software, " jar indirmesi bu sürümde yok. Vanilla, Paper, Purpur veya Fabric seç.")
}

/// The archive of a version of Purpur.
pub fn purpur_url(version: &str) -> (r: String)
    ensures
        r@ == "https://api.purpurmc.org/v2/purpur/"@ + version@ + "/latest/download"@,
{
    cat3("https://api.purpurmc.org/v2/purpur/", version, "/latest/download")
}

/// What is known of the last build of a version of Paper.
pub fn paper_build_url(version: &str) -> (r: String)
    ensures
        r@ == "https://fill.papermc.io/v3/projects/paper/versions/"@ + version@
            + "/builds/latest"@,
{
    cat3("https://fill.papermc.io/v3/projects/paper/versions/", version, "/builds/latest")
}

/// The archive of a build of Paper, where it has one.
pub fn paper_server_url(version: &str, url: &Option<String>) -> (r: Result<String, String>)
    ensures
        match r {
            Ok(u) => *url is Some && u@ == (*url)->0@,
            Err(e) => *url is None && e@ == "Paper "@ + version@ + " için jar yok."@,
        },
{
    match url {
        Some(u) => Ok(u.clone()),
        None => Err(cat3("Paper ", version, " için jar yok.")),
    }
}

/// The place of the first of `list` from `i` on that is `version`.
pub open spec fn version_place(list: Seq<Offered>, version: Seq<char>, i: int) -> Option<int>
    decreases list.len() - i,
{
    if i < 0 || i >= list.len() {
        None
    } else if list[i].version@ == version {
        Some(i)
    } else {
        version_place(list, version, i + 1)
    }
}

/// Where more is known of a version of Vanilla.
pub fn vanilla_entry(list: &Vec<Offered>, version: &str) -> (r: Result<String, String>)
    ensures
        match r {
            Ok(u) => version_place(list@, version@, 0) is Some && u@ == list@[version_place(
                list@,
                version@,
                0,
            )->0].url@,
            Err(e) => version_place(list@, version@, 0) is None && e@ == "Vanilla "@ + version@
                + " Mojang listesinde yok."@,
        },
{
    let n: usize = list.len();
    for i in 0..n
        invariant
            n == list@.len(),
            version_place(list@, version@, 0) == version_place(list@, version@, i as int),
    {
        if same(list[i].version.as_str(), version) {
            return Ok(list[i].url.clone());
        }
    }
    Err(cat3("Vanilla ", version, " Mojang listesinde yok."))
}

/// The archive of a version of Vanilla, where it has one.
pub fn vanilla_server_url(version: &str, url: &Option<String>) -> (r: Result<String, String>)
    ensures
        match r {
            Ok(u) => *url is Some && u@ == (*url)->0@,
            Err(e) => *url is None && e@ == "Vanilla "@ + version@ + " için sunucu jar yok."@,
        },
{
    match url {
        Some(u) => Ok(u.clone()),
        None => Err(cat3("Vanilla ", version, " için sunucu jar yok.")),
    }
}

/// The place of the first of `list` from `i` on that is stable.
pub open spec fn stable_place(list: Seq<Offered>, i: int) -> Option<int>
    decreases list.len() - i,
{
    if i < 0 || i >= list.len() {
        None
    } else if list[i].stable {
        Some(i)
    } else {
        stable_place(list, i + 1)
    }
}

/// The version of `list` to take: the first stable one, or the first.
pub open spec fn preferred(list: Seq<Offered>) -> Option<Seq<char>> {
    match stable_place(list, 0) {
        Some(i) => Some(list[i].version@),
        None => if list.len() > 0 {
            Some(list[0].version@)
        } else {
            None
        },
    }
}

fn preferred_of(list: &Vec<Offered>) -> (r: Option<&String>)
    ensures
        match r {
            Some(v) => preferred(list@) == Some(v@),
            None => preferred(list@) is None,
        },
{
    let n: usize = list.len();
    for i in 0..n
        invariant
            n == list@.len(),
            stable_place(list@, 0) == stable_place(list@, i as int),
    {
        if list[i].stable {
            return Some(&list[i].version);
        }
    }
    if n > 0 {
        Some(&list[0].version)
    } else {
        None
    }
}

/// The archive of a version of Fabric, with the loader and the installer to take.
pub fn fabric_server_url(version: &str, loaders: &Vec<Offered>, installers: &Vec<Offered>) -> (r:
    Result<String, String>)
    ensures
        match r {
            Ok(u) => preferred(loaders@) is Some && preferred(installers@) is Some && u@
                == "https://meta.fabricmc.net/v2/versions/loader/"@ + version@ + "/"@ + preferred(
                loaders@,
            )->0 + "/"@ + preferred(installers@)->0 + "/server/jar"@,
            Err(e) => if preferred(loaders@) is None {
                e@ == "Fabric loader bulunamadı."@
            } else {
                preferred(installers@) is None && e@ == "Fabric installer bulunamadı."@
            },
        },
{
    let loader = match preferred_of(loaders) {
        Some(l) => l,
        None => {
            return Err("Fabric loader bulunamadı.".to_owned());
        },
    };
    let installer = match preferred_of(installers) {
        Some(i) => i,
        None => {
            return Err("Fabric installer bulunamadı.".to_owned());
        },
    };
    let mut url = cat4(
        "https://meta.fabricmc.net/v2/versions/loader/",
        version,
        "/",
        loader.as_str(),
    );
    url.append("/");
    url.append(installer.as_str());
    url.append("/server/jar");
    Ok(url)
}

// ---------------------------------------------------------------------------------------------
// The table of versions
// ---------------------------------------------------------------------------------------------
/// A row of the table: up to four versions.
pub struct VersionRow {
    pub v1: String,
    pub has1: bool,
    pub v2: String,
    pub has2: bool,
    pub v3: String,
    pub has3: bool,
    pub v4: String,
    pub has4: bool,
}

/// Whether the cell `c` of the row `r` holds a version.
pub open spec fn cell(row: VersionRow, c: int) -> (bool, Seq<char>) {
    if c == 0 {
        (row.has1, row.v1@)
    } else if c == 1 {
        (row.has2, row.v2@)
    } else if c == 2 {
        (row.has3, row.v3@)
    } else {
        (row.has4, row.v4@)
    }
}

/// What stands at the place `i` of the table of `versions`.
pub open spec fn version_at(versions: Seq<Seq<char>>, i: int) -> (bool, Seq<char>) {
    if i < versions.len() {
        (true, versions[i])
    } else {
        (false, Seq::empty())
    }
}

fn cell_of(versions: &Vec<String>, i: usize) -> (r: (bool, String))
    ensures
        (r.0, r.1@) == version_at(texts(versions@), i as int),
{
    if i < versions.len() {
        (true, versions[i].clone())
    } else {
        (false, String::new())
    }
}

/// The table of versions: four in a row, in their order, and nothing after the last.
pub fn format_version_rows(versions: &Vec<String>) -> (r: Vec<VersionRow>)
    requires
        versions@.len() + 4 <= usize::MAX,
    ensures
        r@.len() == (versions@.len() + 3) / 4,
        forall|i: int, c: int|
            #![trigger cell(r@[i], c)]
            0 <= i < r@.len() && 0 <= c < 4 ==> cell(r@[i], c) == version_at(
                texts(versions@),
                4 * i + c,
            ),
{
    let n: usize = versions.len();
    let mut rows: Vec<VersionRow> = Vec::new();
    let mut i: usize = 0;
    while i < n
        invariant
            n == versions@.len(),
            n + 4 <= usize::MAX,
            i == 4 * rows@.len(),
            i < n + 4,
            forall|k: int, c: int|
                #![trigger cell(rows@[k], c)]
                0 <= k < rows@.len() && 0 <= c < 4 ==> cell(rows@[k], c) == version_at(
                    texts(versions@),
                    4 * k + c,
                ),
        decreases n + 4 - i,
    {
        let (has1, v1) = cell_of(versions, i);
        let (has2, v2) = cell_of(versions, i + 1);
        let (has3, v3) = cell_of(versions, i + 2);
        let (has4, v4) = cell_of(versions, i + 3);
        rows.push(VersionRow { v1, has1, v2, has2, v3, has3, v4, has4 });
        i = i + 4;
    }
    rows
}

// ---------------------------------------------------------------------------------------------
// Laws
// ---------------------------------------------------------------------------------------------
/// The entry of a version is the first one that has exactly that version; there is none where no
/// entry has it.
pub proof fn law_entry_of_a_version(list: Seq<Offered>, version: Seq<char>)
    ensures
        match version_place(list, version, 0) {
            Some(i) => 0 <= i < list.len() && list[i].version@ == version && forall|j: int|
                0 <= j < i ==> (#[trigger] list[j]).version@ != version,
            None => forall|j: int| 0 <= j < list.len() ==> (#[trigger] list[j]).version@ != version,
        },
{
    lemma_version_place(list, version, 0);
}

proof fn lemma_version_place(list: Seq<Offered>, version: Seq<char>, i: int)
    requires
        0 <= i,
    ensures
        match version_place(list, version, i) {
            Some(k) => i <= k < list.len() && list[k].version@ == version && forall|j: int|
                i <= j < k ==> (#[trigger] list[j]).version@ != version,
            None => forall|j: int| i <= j < list.len() ==> (#[trigger] list[j]).version@ != version,
        },
    decreases list.len() - i,
{
    if i < list.len() && list[i].version@ != version {
        lemma_version_place(list, version, i + 1);
    }
}

/// Of a list, the first stable version is taken; where none is stable, the first; and none only where
/// the list is empty.
pub proof fn law_preferred(list: Seq<Offered>, i: int)
    ensures
        0 <= i < list.len() && list[i].stable && (forall|j: int|
            0 <= j < i ==> !(#[trigger] list[j]).stable) ==> preferred(list) == Some(list[i].version@),
        list.len() > 0 && (forall|j: int| 0 <= j < list.len() ==> !(#[trigger] list[j]).stable)
            ==> preferred(list) == Some(list[0].version@),
        list.len() == 0 ==> preferred(list) is None,
{
    lemma_stable_place(list, 0);
    if 0 <= i < list.len() && list[i].stable && (forall|j: int|
        0 <= j < i ==> !(#[trigger] list[j]).stable) {
        match stable_place(list, 0) {
            Some(k) => {
                if k < i {
                    assert(!list[k].stable);
                } else if i < k {
                    assert(!list[i].stable);
                }
            },
            None => {
                assert(!list[i].stable);
            },
        }
    }
}

proof fn lemma_stable_place(list: Seq<Offered>, i: int)
    requires
        0 <= i,
    ensures
        match stable_place(list, i) {
            Some(k) => i <= k < list.len() && list[k].stable && forall|j: int|
                i <= j < k ==> !(#[trigger] list[j]).stable,
            None => forall|j: int| i <= j < list.len() ==> !(#[trigger] list[j]).stable,
        },
    decreases list.len() - i,
{
    if i < list.len() && !list[i].stable {
        lemma_stable_place(list, i + 1);
    }
}

/// All versions that are offered are listed, in their order, and no others; of a long list, as many
/// as there is room for, from its start.
pub proof fn law_offered_versions(list: Seq<Offered>, s: Seq<Seq<char>>, n: nat)
    ensures
        stable_versions(list) == list.filter(|o: Offered| o.stable).map_values(
            |o: Offered| o.version@,
        ),
        first_of(s, n).len() == (if s.len() < n {
            s.len()
        } else {
            n
        }),
        forall|i: int| 0 <= i < first_of(s, n).len() ==> #[trigger] first_of(s, n)[i] == s[i],
    decreases list.len(),
{
    reveal(Seq::filter);
    let stable = |o: Offered| o.stable;
    let version = |o: Offered| o.version@;
    if list.len() == 0 {
        assert(list.filter(stable).map_values(version) =~= Seq::<Seq<char>>::empty());
    } else {
        let init = list.drop_last();
        law_offered_versions(init, s, n);
        if list.last().stable {
            assert(init.filter(stable).push(list.last()).map_values(version) =~= init.filter(
                stable,
            ).map_values(version).push(list.last().version@));
        }
    }
}

/// The versions of Paper are the texts in the arrays of its table, array by array, in their order;
/// what is no array and what is no text is left out.
pub proof fn law_versions_of_paper(
    a: Seq<(Seq<char>, JsonV)>,
    b: Seq<(Seq<char>, JsonV)>,
    key: Seq<char>,
    items: Seq<JsonV>,
    other: JsonV,
)
    ensures
        paper_list(a + b) == paper_list(a) + paper_list(b),
        paper_list(seq![(key, JsonV::Arr(items))]) == items.filter(|v: JsonV| v is Str).map_values(
            |v: JsonV| v->Str_0,
        ),
        !(other is Arr) ==> paper_list(seq![(key, other)]) == Seq::<Seq<char>>::empty(),
        paper_offers(JsonV::Obj(a)) == first_of(paper_list(a), 48),
        !(other is Obj) ==> paper_offers(other) == Seq::<Seq<char>>::empty(),
    decreases b.len(),
{
    let none = Seq::<(Seq<char>, JsonV)>::empty();
    lemma_texts_among(items);
    let one = seq![(key, JsonV::Arr(items))];
    assert(one.drop_last() == none && one.last() == (key, JsonV::Arr(items)));
    assert(paper_list(none) == Seq::<Seq<char>>::empty());
    assert(Seq::<Seq<char>>::empty() + texts_among(items) == texts_among(items));
    let two = seq![(key, other)];
    assert(two.drop_last() == none && two.last() == (key, other));
    if b.len() == 0 {
        assert(a + b == a);
        assert(paper_list(a) + paper_list(b) == paper_list(a));
    } else {
        law_versions_of_paper(a, b.drop_last(), key, items, other);
        assert((a + b).drop_last() == a + b.drop_last());
        assert((a + b).last() == b.last());
        match b.last().1.as_array() {
            Some(more) => {
                assert(paper_list(a) + paper_list(b.drop_last()) + texts_among(more) == paper_list(a)
                    + (paper_list(b.drop_last()) + texts_among(more)));
            },
            None => {},
        }
    }
}

proof fn lemma_texts_among(items: Seq<JsonV>)
    ensures
        texts_among(items) == items.filter(|v: JsonV| v is Str).map_values(|v: JsonV| v->Str_0),
    decreases items.len(),
{
    reveal(Seq::filter);
    let text = |v: JsonV| v is Str;
    let held = |v: JsonV| v->Str_0;
    if items.len() == 0 {
        assert(items.filter(text).map_values(held) =~= Seq::<Seq<char>>::empty());
    } else {
        let init = items.drop_last();
        lemma_texts_among(init);
        if items.last() is Str {
            assert(init.filter(text).push(items.last()).map_values(held) =~= init.filter(
                text,
            ).map_values(held).push(items.last()->Str_0));
        }
    }
}

/// The text of a version with three numbers.
pub open spec fn version_text(v: (nat, nat, nat)) -> Seq<char> {
    decimal(v.0) + seq!['.'] + decimal(v.1) + seq!['.'] + decimal(v.2)
}

/// The numbers of a version are the ones that are written between its dots, with or without a `v`
/// before them, and whatever follows a hyphen after them.
pub proof fn law_version_numbers(v: (nat, nat, nat), more: Seq<char>)
    requires
        v.0 <= u64::MAX,
        v.1 <= u64::MAX,
        v.2 <= u64::MAX,
        more.len() > 0 ==> !is_white(more.last()),
    ensures
        version_of(version_text(v)) == Some(v),
        version_of(seq!['v'] + version_text(v)) == Some(v),
        version_of(seq!['v'] + version_text(v) + seq!['-'] + more) == Some(v),
        version_of(seq!['v'] + decimal(v.0) + seq!['.'] + decimal(v.1)) == Some((v.0, v.1, 0nat)),
        version_of(decimal(v.0)) is None,
{
    let t = version_text(v);
    let seps = seq!['.', '-'];
    assert(seps[0] == '.' && seps[1] == '-');
    let a = decimal(v.0);
    let b = decimal(v.1);
    let c = decimal(v.2);
    lemma_digits_whole(v.0, seps);
    lemma_digits_whole(v.1, seps);
    lemma_digits_whole(v.2, seps);
    lemma_split_append(b, '.', c, seps);
    let bc = b + seq!['.'] + c;
    assert(b.push('.') + c == bc);
    lemma_split_append(a, '.', bc, seps);
    assert(a.push('.') + bc == t);
    assert(seq![a] + (seq![b] + seq![c]) =~= seq![a, b, c]);
    assert(split(t, seps) == seq![a, b, c]);
    lemma_split_append(t, '-', more, seps);
    let tm = t + seq!['-'] + more;
    assert(t.push('-') + more == tm);
    let parts = seq![a, b, c] + split(more, seps);
    assert(split(tm, seps) == parts);
    assert(parts[0] == a && parts[1] == b && parts[2] == c);
    lemma_split_append(a, '.', b, seps);
    let ab = a + seq!['.'] + b;
    assert(a.push('.') + b == ab);
    assert(seq![a] + seq![b] =~= seq![a, b]);
    lemma_tag(t);
    lemma_tag(tm);
    lemma_tag(ab);
    lemma_tag(a);
    assert(seq!['v'] + t + seq!['-'] + more == seq!['v'] + tm);
    assert(seq!['v'] + a + seq!['.'] + b == seq!['v'] + ab);
    crate::numbers::law_decimal_read_back(v.0, u64::MAX as nat);
    crate::numbers::law_decimal_read_back(v.1, u64::MAX as nat);
    crate::numbers::law_decimal_read_back(v.2, u64::MAX as nat);
}

/// A number is one piece, and all of its digits are leading ones.
proof fn lemma_digits_whole(n: nat, seps: Seq<char>)
    requires
        seps == seq!['.', '-'],
    ensures
        split(decimal(n), seps) == seq![decimal(n)],
        leading_digits(decimal(n)) == decimal(n),
        decimal(n).len() > 0,
        is_digit(decimal(n).first()),
        is_digit(decimal(n).last()),
{
    crate::numbers::lemma_decimal(n);
    let d = decimal(n);
    assert(is_digit(d[0]) && is_digit(d[d.len() - 1]));
    assert forall|i: int| 0 <= i < d.len() implies !seps.contains(#[trigger] d[i]) by {
        assert(is_digit(d[i]));
    }
    lemma_split_whole(d, seps);
    lemma_leading(d);
}

proof fn lemma_leading(d: Seq<char>)
    requires
        all_digits(d),
    ensures
        leading_digits(d) == d,
    decreases d.len(),
{
    if d.len() > 0 {
        let rest = d.drop_first();
        assert(is_digit(d[0]));
        assert forall|i: int| 0 <= i < rest.len() implies is_digit(#[trigger] rest[i]) by {
            assert(is_digit(d[i + 1]));
        }
        lemma_leading(rest);
        assert(seq![d.first()] + rest == d);
    } else {
        assert(d == Seq::<char>::empty());
    }
}

/// Text that begins with a digit and does not end in white space is what is left of it after
/// trimming, and of it with a `v` before it after taking that off.
proof fn lemma_tag(t: Seq<char>)
    requires
        t.len() > 0,
        is_digit(t.first()),
        !is_white(t.last()),
    ensures
        strip_start(trim(t), seq!['v']) == t,
        strip_start(trim(seq!['v'] + t), seq!['v']) == t,
{
    let none = Seq::<char>::empty();
    let set = seq!['v'];
    assert(set[0] == 'v');
    crate::text::law_trim(none, t, none);
    assert(none + t + none == t);
    let vt = set + t;
    assert(vt.first() == 'v' && vt.last() == t.last());
    crate::text::law_trim(none, vt, none);
    assert(none + vt + none == vt);
    crate::text::law_strip(none, t, none, set);
    assert(none + t == t);
    crate::text::law_strip(set, t, none, set);
}

/// A release is newer exactly if the first of its three numbers that differs is larger; a tag that
/// is no version is never newer, and nothing is newer than one.
pub proof fn law_newer_by_numbers(a: (nat, nat, nat), b: (nat, nat, nat), x: Seq<char>, y: Seq<char>)
    requires
        a.0 <= u64::MAX && a.1 <= u64::MAX && a.2 <= u64::MAX,
        b.0 <= u64::MAX && b.1 <= u64::MAX && b.2 <= u64::MAX,
    ensures
        is_newer(version_text(a), seq!['v'] + version_text(b)) <==> b.0 > a.0 || (b.0 == a.0 && b.1
            > a.1) || (b.0 == a.0 && b.1 == a.1 && b.2 > a.2),
        version_of(x) is None || version_of(y) is None ==> !is_newer(x, y),
{
    law_version_numbers(a, Seq::empty());
    law_version_numbers(b, Seq::empty());
}

/// The cells of a row are its four versions in their order; a place beyond the last version is
/// empty.
pub proof fn law_cells(row: VersionRow, versions: Seq<Seq<char>>, i: int)
    requires
        0 <= i,
    ensures
        cell(row, 0) == (row.has1, row.v1@),
        cell(row, 1) == (row.has2, row.v2@),
        cell(row, 2) == (row.has3, row.v3@),
        cell(row, 3) == (row.has4, row.v4@),
        i < versions.len() ==> version_at(versions, i) == (true, versions[i]),
        i >= versions.len() ==> version_at(versions, i) == (false, Seq::<char>::empty()),
{
}

} // verus!
