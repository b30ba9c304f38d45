//! The tunnel agent: what its output says, which file is downloaded, and when it is restarted.
use vstd::prelude::*;
use vstd::slice::slice_subrange;

use crate::digest::{hex_of, sha256_hex, sha256_sum};
use crate::json::{json_views, lemma_json_views, Json, JsonV};
use crate::numbers::{decimal, decimal_of, signed_decimal, signed_decimal_of};
use crate::releases::leading_digits;
use crate::text::{
    alphanumeric, cat2, cat3, cat4, chars_of, digit, find, is_alphanumeric, is_empty, is_white,
    lower, lemma_find_from, position, same, same_ignoring_case, starts_with, string_of, strip_end, strip_prefix,
    strip_start, stripped_end, stripped_start, to_lower, white, without_prefix,
};

verus! {

/// How often an agent that ended is started again.
pub const MAX_RESTARTS: u32 = 3;

/// How many bytes the agent has at least.
pub const MIN_BINARY_BYTES: u64 = 1_000_000;

// ---------------------------------------------------------------------------------------------
// What the agent says
// ---------------------------------------------------------------------------------------------
/// What stands in `s` before the first white space.
pub open spec fn until_white(s: Seq<char>) -> Seq<char>
    decreases s.len(),
{
    if s.len() > 0 && !is_white(s.first()) {
        seq![s.first()] + until_white(s.drop_first())
    } else {
        Seq::empty()
    }
}

/// What an address may be wrapped in.
pub open spec fn wrapping() -> Seq<char> {
    seq!['"', '\'', ')', ']']
}

/// The address in a line of output at which the tunnel is claimed.
pub open spec fn claim_in(line: Seq<char>) -> Option<Seq<char>> {
    match find(line, "https://playit.gg/claim/"@) {
        Some(start) => {
            let url = strip_end(strip_start(until_white(line.skip(start)), wrapping()), wrapping());
            if url.len() > "https://playit.gg/claim/"@.len() {
                Some(url)
            } else {
                None
            }
        },
        None => None,
    }
}

/// What stands in `cs` before the first white space.
fn word_first(cs: &[char]) -> (r: &[char])
    ensures
        r@ == until_white(cs@),
{
    let n: usize = cs.len();
    let mut k: usize = 0;
    assert(cs@.take(0) + until_white(cs@.skip(0)) == until_white(cs@)) by {
        assert(cs@.skip(0) == cs@);
        assert(cs@.take(0) == Seq::<char>::empty());
    }
    while k < n && !white(cs[k])
        invariant
            k <= n,
            n == cs@.len(),
            until_white(cs@) == cs@.take(k as int) + until_white(cs@.skip(k as int)),
        decreases n - k,
    {
        let ghost rest = cs@.skip(k as int);
        assert(rest.drop_first() == cs@.skip(k + 1));
        assert(cs@.take(k as int) + (seq![rest.first()] + until_white(cs@.skip(k + 1)))
            == cs@.take(k + 1) + until_white(cs@.skip(k + 1)));
        k = k + 1;
    }
    assert(until_white(cs@.skip(k as int)) == Seq::<char>::empty());
    assert(cs@.subrange(0, k as int) == cs@.take(k as int) + Seq::<char>::empty());
    slice_subrange(cs, 0, k)
}

/// The address in a line of output at which the tunnel is claimed.
pub fn capture_claim(line: &str) -> (r: Option<String>)
    ensures
        match r {
            Some(u) => claim_in(line@) == Some(u@),
            None => claim_in(line@) is None,
        },
{
    let cs = chars_of(line);
    let marker = chars_of("https://playit.gg/claim/");
    let n: usize = cs.len();
    match position(&cs, &marker) {
        Some(start) => {
            proof {
                lemma_find_from(cs@, marker@, 0);
            }
            assert(cs@.subrange(start as int, n as int) == cs@.skip(start as int));
            let set: Vec<char> = vec!['"', '\'', ')', ']'];
            assert(set@ == wrapping());
            let word = word_first(slice_subrange(&cs, start, n));
            let url = stripped_end(stripped_start(word, &set), &set);
            if url.len() > marker.len() {
                Some(string_of(url))
            } else {
                None
            }
        },
        None => None,
    }
}

/// Whether `c` may stand in a host name.
pub open spec fn is_host(c: char) -> bool {
    is_alphanumeric(c) || c == '.' || c == '-'
}

/// Whether `c` may stand in a host name.
pub fn is_host_char(c: char) -> (r: bool)
    ensures
        r == is_host(c),
{
    alphanumeric(c) || c == '.' || c == '-'
}

/// Where the run of host characters that ends before `i` begins.
pub open spec fn host_start(s: Seq<char>, i: int) -> int
    decreases i,
{
    if 0 < i <= s.len() && is_host(s[i - 1]) {
        host_start(s, i - 1)
    } else {
        i
    }
}

/// Where the run of host characters that begins at `i` ends.
pub open spec fn host_end(s: Seq<char>, i: int) -> int
    decreases s.len() - i,
{
    if 0 <= i < s.len() && is_host(s[i]) {
        host_end(s, i + 1)
    } else {
        i
    }
}

/// The port after a host name: a colon and two to five digits.
pub open spec fn port_after(rest: Seq<char>) -> Seq<char> {
    match strip_prefix(rest, ":"@) {
        Some(r) => {
            let port = leading_digits(r);
            if 2 <= port.len() <= 5 {
                ":"@ + port
            } else {
                Seq::empty()
            }
        },
        None => Seq::empty(),
    }
}

/// The place of the agent's domain in a line in small letters.
pub open spec fn domain_in(line: Seq<char>) -> Option<int> {
    match find(line, ".ply.gg"@) {
        Some(i) => Some(i),
        None => find(line, ".playit.gg"@),
    }
}

/// The public address of the tunnel in a line of output: the host name around the agent's
/// domain, in small letters, and the port after it.
pub open spec fn address_in(line: Seq<char>) -> Option<Seq<char>> {
    let low = lower(line);
    match domain_in(low) {
        Some(i) => {
            let end = host_end(low, i);
            let host = low.subrange(host_start(low, i), end);
            let bare = strip_end(strip_start(host, seq!['.']), seq!['.']);
            if bare.len() == 0 {
                None
            } else {
                Some(bare + port_after(line.skip(end)))
            }
        },
        None => None,
    }
}

fn start_of_host(cs: &Vec<char>, i: usize) -> (r: usize)
    requires
        i <= cs@.len(),
    ensures
        r == host_start(cs@, i as int),
        r <= i,
{
    let mut k: usize = i;
    while k > 0 && is_host_char(cs[k - 1])
        invariant
            k <= i,
            i <= cs@.len(),
            host_start(cs@, i as int) == host_start(cs@, k as int),
        decreases k,
    {
        k = k - 1;
    }
    k
}

fn end_of_host(cs: &Vec<char>, i: usize) -> (r: usize)
    requires
        i <= cs@.len(),
    ensures
        r == host_end(cs@, i as int),
        i <= r <= cs@.len(),
{
    let n: usize = cs.len();
    let mut k: usize = i;
    while k < n && is_host_char(cs[k])
        invariant
            i <= k <= n,
            n == cs@.len(),
            host_end(cs@, i as int) == host_end(cs@, k as int),
        decreases n - k,
    {
        k = k + 1;
    }
    k
}

/// The digits at the start of `cs`.
fn digits_of(cs: &[char]) -> (r: Vec<char>)
    ensures
        r@ == leading_digits(cs@),
{
    let n: usize = cs.len();
    let mut out: Vec<char> = Vec::new();
    let mut k: usize = 0;
    assert(cs@.skip(0) == cs@);
    while k < n && digit(cs[k])
        invariant
            k <= n,
            n == cs@.len(),
            leading_digits(cs@) == out@ + leading_digits(cs@.skip(k as int)),
        decreases n - k,
    {
        let ghost rest = cs@.skip(k as int);
        let ghost o0 = out@;
        assert(rest.drop_first() == cs@.skip(k + 1));
        out.push(cs[k]);
        assert(o0 + (seq![rest.first()] + leading_digits(cs@.skip(k + 1))) == out@
            + leading_digits(cs@.skip(k + 1)));
        k = k + 1;
    }
    assert(leading_digits(cs@.skip(k as int)) == Seq::<char>::empty());
    out
}

fn port_of(rest: &[char]) -> (r: String)
    ensures
        r@ == port_after(rest@),
{
    match without_prefix(rest, &chars_of(":")) {
        Some(r) => {
            let port = digits_of(r);
            if 2 <= port.len() && port.len() <= 5 {
                cat2(":", string_of(&port).as_str())
            } else {
                String::new()
            }
        },
        None => String::new(),
    }
}

/// The public address of the tunnel in a line of output.
pub fn capture_address(line: &str) -> (r: Option<String>)
    ensures
        match r {
            Some(a) => address_in(line@) == Some(a@),
            None => address_in(line@) is None,
        },
{
    let cs = chars_of(line);
    let low = to_lower(&cs);
    let n: usize = cs.len();
    let first = chars_of(".ply.gg");
    let second = chars_of(".playit.gg");
    let i: usize = match position(&low, &first) {
        Some(i) => {
            proof {
                lemma_find_from(low@, first@, 0);
            }
            i
        },
        None => match position(&low, &second) {
            Some(i) => {
                proof {
                    lemma_find_from(low@, second@, 0);
                }
                i
            },
            None => {
                return None;
            },
        },
    };
    let begin: usize = start_of_host(&low, i);
    let end: usize = end_of_host(&low, i);
    let dot: Vec<char> = vec!['.'];
    assert(dot@ == seq!['.']);
    let host = stripped_end(stripped_start(slice_subrange(&low, begin, end), &dot), &dot);
    if host.len() == 0 {
        return None;
    }
    assert(cs@.subrange(end as int, n as int) == cs@.skip(end as int));
    let port = port_of(slice_subrange(&cs, end, n));
    Some(cat2(string_of(host).as_str(), port.as_str()))
}

// ---------------------------------------------------------------------------------------------
// Which file is downloaded
// ---------------------------------------------------------------------------------------------
/// A file of a release.
pub struct ReleaseAsset {
    pub name: String,
    pub url: String,
    pub digest: Option<String>,
}

/// The file for a machine.
pub fn wanted_asset_name(windows: bool, arm: bool) -> (r: &'static str)
    ensures
        r@ == (if windows {
            "playit-windows-x86_64-signed.exe"@
        } else if arm {
            "playit-linux-aarch64"@
        } else {
            "playit-linux-amd64"@
        }),
{
    if windows {
        "playit-windows-x86_64-signed.exe"
    } else if arm {
        "playit-linux-aarch64"
    } else {
        "playit-linux-amd64"
    }
}

/// The place of the first of `assets` from `i` on that is called `want`.
pub open spec fn asset_place(assets: Seq<JsonV>, want: Seq<char>, i: int) -> Option<int>
    decreases assets.len() - i,
{
    if i < 0 || i >= assets.len() {
        None
    } else if assets[i].text("name"@) == Some(want) {
        Some(i)
    } else {
        asset_place(assets, want, i + 1)
    }
}

/// The file `want` of a release.
pub fn pick_asset(release: &Json, want: &str) -> (r: Result<ReleaseAsset, String>)
    ensures
        match (r, release@.items("assets"@)) {
            (Ok(a), Some(assets)) => match asset_place(assets, want@, 0) {
                Some(i) => a.name@ == want@ && a.url@ == assets[i].text_or_empty(
                    "browser_download_url"@,
                ) && (match a.digest {
                    Some(d) => assets[i].text("digest"@) == Some(d@),
                    None => assets[i].text("digest"@) is None,
                }),
                None => false,
            },
            (Err(e), Some(assets)) => asset_place(assets, want@, 0) is None && e@ == want@
                + " bulunamadı"@,
            (Ok(_), None) => false,
            (Err(e), None) => e@ == "playit release boş"@,
        },
{
    let assets = match release.items("assets") {
        Some(a) => a,
        None => {
            return Err("playit release boş".to_owned());
        },
    };
    let n: usize = assets.len();
    let ghost all = json_views(assets@);
    proof {
        lemma_json_views(assets@);
    }
    for i in 0..n
        invariant
            n == assets@.len(),
            all == json_views(assets@),
            all.len() == n,
            forall|j: int| 0 <= j < n ==> #[trigger] all[j] == assets@[j]@,
            release@.items("assets"@) == Some(all),
            asset_place(all, want@, 0) == asset_place(all, want@, i as int),
    {
        assert(all[i as int] == assets@[i as int]@);
        let matches = match assets[i].text("name") {
            Some(name) => same(name.as_str(), want),
            None => false,
        };
        if matches {
            return Ok(
                ReleaseAsset {
                    name: want.to_owned(),
                    url: assets[i].text_or_empty("browser_download_url"),
                    digest: assets[i].text("digest"),
                },
            );
        }
    }
    Err(cat2(want, " bulunamadı"))
}

/// Whether the agent is there already.
pub fn binary_ready(is_file: bool, len: u64) -> (r: bool)
    ensures
        r == (is_file && len >= MIN_BINARY_BYTES),
{
    is_file && len >= MIN_BINARY_BYTES
}

/// Whether a file has an address.
pub fn check_address(asset: &ReleaseAsset) -> (r: Result<(), String>)
    ensures
        match r {
            Ok(_) => asset.url@.len() > 0,
            Err(e) => asset.url@.len() == 0 && e@ == "indirme adresi boş"@,
        },
{
    if is_empty(asset.url.as_str()) {
        Err("indirme adresi boş".to_owned())
    } else {
        Ok(())
    }
}

/// How much of a download has come, in per cent; nothing where its size is not known.
pub open spec fn percent(got: u64, total: u64) -> Option<int> {
    if total == 0 {
        None
    } else {
        let hundred = if got * 100 > u64::MAX {
            u64::MAX as int
        } else {
            got * 100
        };
        let p = hundred / total as int;
        Some(
            if p > 100 {
                100
            } else {
                p
            },
        )
    }
}

/// How much of a download has come.
pub fn download_progress(got: u64, total: u64) -> (r: Option<String>)
    ensures
        match r {
            Some(s) => percent(got, total) is Some && s@ == decimal(percent(got, total)->0 as nat)
                + "%"@,
            None => percent(got, total) is None,
        },
{
    if total == 0 {
        return None;
    }
    let hundred: u64 = if got > u64::MAX / 100 {
        u64::MAX
    } else {
        got * 100
    };
    let p: u64 = hundred / total;
    let p: u64 = if p > 100 {
        100
    } else {
        p
    };
    Some(cat2(decimal_of(p).as_str(), "%"))
}

/// The checksum that a release says its file has.
pub open spec fn promised(digest: Option<Seq<char>>) -> Option<Seq<char>> {
    match digest {
        Some(d) => strip_prefix(d, "sha256:"@),
        None => None,
    }
}

/// What a release says of its file's checksum.
pub open spec fn digest_of(asset: ReleaseAsset) -> Option<Seq<char>> {
    match asset.digest {
        Some(d) => Some(d@),
        None => None,
    }
}

/// What is wrong with a download of `len` bytes whose checksum is `actual`: too few bytes, or
/// another checksum than the release says.
pub open spec fn fault(len: nat, actual: Seq<char>, digest: Option<Seq<char>>) -> Option<Seq<char>> {
    if len < MIN_BINARY_BYTES {
        Some("playit dosyası eksik indi"@)
    } else {
        match promised(digest) {
            Some(want) => if lower(actual) != lower(want) {
                Some("playit sağlama toplamı uyuşmadı"@)
            } else {
                None
            },
            None => None,
        }
    }
}

/// Whether a download of `len` bytes with the checksum `actual` is the file of the release.
pub fn check_sum(len: usize, actual: &str, asset: &ReleaseAsset) -> (r: Result<(), String>)
    ensures
        match r {
            Ok(_) => fault(len as nat, actual@, digest_of(*asset)) is None,
            Err(e) => fault(len as nat, actual@, digest_of(*asset)) == Some(e@),
        },
{
    if (len as u64) < MIN_BINARY_BYTES {
        return Err("playit dosyası eksik indi".to_owned());
    }
    if let Some(d) = &asset.digest {
        let cs = chars_of(d.as_str());
        if let Some(want) = without_prefix(&cs, &chars_of("sha256:")) {
            if !same_ignoring_case(actual, string_of(want).as_str()) {
                return Err("playit sağlama toplamı uyuşmadı".to_owned());
            }
        }
    }
    Ok(())
}

/// Whether `bytes` are the file of the release.
pub fn check_download(bytes: &[u8], asset: &ReleaseAsset) -> (r: Result<(), String>)
    ensures
        match r {
            Ok(_) => fault(bytes@.len(), hex_of(sha256_sum(bytes@)), digest_of(*asset)) is None,
            Err(e) => fault(bytes@.len(), hex_of(sha256_sum(bytes@)), digest_of(*asset)) == Some(
                e@,
            ),
        },
{
    let actual = sha256_hex(bytes);
    check_sum(bytes.len(), actual.as_str(), asset)
}

// ---------------------------------------------------------------------------------------------
// What the panel shows
// ---------------------------------------------------------------------------------------------
/// What the agent is doing.
#[derive(Clone, Copy, Debug, PartialEq, Eq, Structural)]
pub enum Phase {
    Idle,
    Downloading,
    Running,
    Stopped,
    Error,
}

/// What the panel calls a phase.
pub open spec fn phase_name(phase: Phase, turkish: bool) -> Seq<char> {
    match phase {
        Phase::Idle => if turkish {
            "Hazır"@
        } else {
            "Idle"@
        },
        Phase::Downloading => if turkish {
            "İndiriliyor"@
        } else {
            "Downloading"@
        },
        Phase::Running => if turkish {
            "Çalışıyor"@
        } else {
            "Running"@
        },
        Phase::Stopped => if turkish {
            "Durdu"@
        } else {
            "Stopped"@
        },
        Phase::Error => if turkish {
            "Hata"@
        } else {
            "Error"@
        },
    }
}

fn phase_label(phase: Phase, turkish: bool) -> (r: &'static str)
    ensures
        r@ == phase_name(phase, turkish),
{
    match phase {
        Phase::Idle => if turkish {
            "Hazır"
        } else {
            "Idle"
        },
        Phase::Downloading => if turkish {
            "İndiriliyor"
        } else {
            "Downloading"
        },
        Phase::Running => if turkish {
            "Çalışıyor"
        } else {
            "Running"
        },
        Phase::Stopped => if turkish {
            "Durdu"
        } else {
            "Stopped"
        },
        Phase::Error => if turkish {
            "Hata"
        } else {
            "Error"
        },
    }
}

/// What the panel shows of a phase.
pub fn phase_text(phase: Phase, detail: &str, turkish: bool) -> (r: String)
    ensures
        r@ == (if detail@.len() == 0 {
            phase_name(phase, turkish)
        } else {
            phase_name(phase, turkish) + ": "@ + detail@
        }),
{
    if is_empty(detail) {
        phase_label(phase, turkish).to_owned()
    } else {
        cat3(phase_label(phase, turkish), ": ", detail)
    }
}

/// Whether the panel shows the agent as running.
pub fn shows_running(phase: Phase) -> (r: bool)
    ensures
        r == (phase == Phase::Running || phase == Phase::Downloading),
{
    match phase {
        Phase::Running => true,
        Phase::Downloading => true,
        _ => false,
    }
}

/// Where the tunnel has to lead.
pub fn tunnel_hint(port: u16, turkish: bool) -> (r: String)
    ensures
        r@ == (if turkish {
            "Tünel hedefi 127.0.0.1:"@ + decimal(port as nat)
                + ". Playit sitesinde TCP tünelini bu porta ayarla."@
        } else {
            "Tunnel target is 127.0.0.1:"@ + decimal(port as nat)
                + ". Set the TCP tunnel to that port on playit.gg."@
        }),
{
    let p = decimal_of(port as u64);
    if turkish {
        cat3(
            "Tünel hedefi 127.0.0.1:",
            p.as_str(),
            ". Playit sitesinde TCP tünelini bu porta ayarla.",
        )
    } else {
        cat3(
            "Tunnel target is 127.0.0.1:",
            p.as_str(),
            ". Set the TCP tunnel to that port on playit.gg.",
        )
    }
}

/// Whether an address may be opened to claim the tunnel.
pub fn may_open_claim(url: &str) -> (r: bool)
    ensures
        r == starts_with(url@, "https://playit.gg/"@),
{
    crate::text::begins_with(url, "https://playit.gg/")
}

// ---------------------------------------------------------------------------------------------
// When the agent is restarted
// ---------------------------------------------------------------------------------------------
/// What is known of the agent: whether it runs, whether it is to run, how often it was restarted
/// since it was asked for, the port it is for, and whether the last start was a restart.
#[derive(Clone, Copy, Debug, PartialEq, Eq, Structural)]
pub struct Supervisor {
    pub running: bool,
    pub wanted: bool,
    pub restarts: u32,
    pub last_port: u16,
    pub retrying: bool,
}

/// Something that happened.
pub enum Event {
    /// The user asks for the agent.
    Start(u16),
    /// The user wants it no more.
    Stop,
    /// There is no user any more.
    Disconnected,
    /// The agent has ended.
    Exited(i32),
    /// The agent was started.
    Launched,
    /// The agent could not be started.
    Failed(String),
}

/// Something that is to be done.
#[derive(Clone, Copy, Debug, PartialEq, Eq, Structural)]
pub enum Command {
    /// Nothing.
    Rest,
    /// End the agent; where `quit` is set, for good.
    Halt { quit: bool },
    /// Wait, then start the agent; where `replace` is set, end the one that runs first.
    Launch { port: u16, wait_secs: u64, replace: bool },
}

/// What is to be done, and what is shown.
pub struct Reply {
    pub command: Command,
    pub phase: Option<Phase>,
    pub detail: String,
}

/// How long the `n`th restart waits, in seconds.
pub open spec fn restart_wait(n: u32) -> u64 {
    if n <= 1 {
        1
    } else if n == 2 {
        2
    } else {
        4
    }
}

/// The state after an event.
pub open spec fn next_state(s: Supervisor, event: Event) -> Supervisor {
    match event {
        Event::Start(port) => Supervisor {
            running: false,
            wanted: true,
            restarts: 0,
            last_port: port,
            retrying: false,
        },
        Event::Stop => Supervisor { running: false, wanted: false, restarts: 0, ..s },
        Event::Disconnected => Supervisor { running: false, wanted: false, restarts: 0, ..s },
        Event::Launched => Supervisor { running: true, ..s },
        Event::Failed(_) => if s.retrying {
            s
        } else {
            Supervisor { wanted: false, ..s }
        },
        Event::Exited(_) => if !s.running {
            s
        } else if !s.wanted {
            Supervisor { running: false, ..s }
        } else if s.restarts >= MAX_RESTARTS {
            Supervisor { running: false, wanted: false, ..s }
        } else {
            Supervisor {
                running: false,
                restarts: (s.restarts + 1) as u32,
                retrying: true,
                ..s
            }
        },
    }
}

/// What is done for an event.
pub open spec fn command_for(s: Supervisor, event: Event) -> Command {
    match event {
        Event::Start(port) => Command::Launch { port, wait_secs: 0, replace: true },
        Event::Stop => Command::Halt { quit: false },
        Event::Disconnected => Command::Halt { quit: true },
        Event::Exited(_) => if s.running && s.wanted && s.restarts < MAX_RESTARTS {
            Command::Launch {
                port: s.last_port,
                wait_secs: restart_wait((s.restarts + 1) as u32),
                replace: false,
            }
        } else {
            Command::Rest
        },
        _ => Command::Rest,
    }
}

/// The phase that is shown for an event, with its detail.
pub open spec fn phase_for(s: Supervisor, event: Event) -> Option<(Phase, Seq<char>)> {
    match event {
        Event::Start(_) => None,
        Event::Stop => Some((Phase::Stopped, Seq::empty())),
        Event::Disconnected => Some((Phase::Stopped, Seq::empty())),
        Event::Launched => Some((Phase::Running, Seq::empty())),
        Event::Failed(why) => if s.retrying {
            None
        } else {
            Some((Phase::Error, why@))
        },
        Event::Exited(code) => if !s.running {
            None
        } else if !s.wanted {
            Some((Phase::Stopped, Seq::empty()))
        } else if s.restarts >= MAX_RESTARTS {
            Some((Phase::Error, "playit kapandı ("@ + signed_decimal(code as int) + ")"@))
        } else {
            Some(
                (
                    Phase::Error,
                    "yeniden deneniyor "@ + decimal((s.restarts + 1) as nat) + "/"@ + decimal(
                        MAX_RESTARTS as nat,
                    ),
                ),
            )
        },
    }
}

impl Reply {
    /// The phase that is shown, with its detail.
    pub open spec fn shown(&self) -> Option<(Phase, Seq<char>)> {
        match self.phase {
            Some(p) => Some((p, self.detail@)),
            None => None,
        }
    }
}

impl Supervisor {
    /// The agent is restarted no more often than is allowed.
    pub open spec fn wf(&self) -> bool {
        self.restarts <= MAX_RESTARTS
    }

    /// No agent runs, and none is to run.
    pub fn new() -> (r: Supervisor)
        ensures
            r.wf(),
            !r.running,
            !r.wanted,
            r.restarts == 0,
            r.last_port == 25565,
            !r.retrying,
    {
        Supervisor { running: false, wanted: false, restarts: 0, last_port: 25565, retrying: false }
    }

    /// Takes note of an event, and says what is to be done and shown.
    pub fn step(&mut self, event: &Event) -> (r: Reply)
        requires
            old(self).wf(),
        ensures
            final(self).wf(),
            *final(self) == next_state(*old(self), *event),
            r.command == command_for(*old(self), *event),
            r.shown() == phase_for(*old(self), *event),
    {
        match event {
            Event::Start(port) => {
                self.running = false;
                self.wanted = true;
                self.restarts = 0;
                self.last_port = *port;
                self.retrying = false;
                Reply {
                    command: Command::Launch { port: *port, wait_secs: 0, replace: true },
                    phase: None,
                    detail: String::new(),
                }
            },
            Event::Stop => {
                self.running = false;
                self.wanted = false;
                self.restarts = 0;
                Reply {
                    command: Command::Halt { quit: false },
                    phase: Some(Phase::Stopped),
                    detail: String::new(),
                }
            },
            Event::Disconnected => {
                self.running = false;
                self.wanted = false;
                self.restarts = 0;
                Reply {
                    command: Command::Halt { quit: true },
                    phase: Some(Phase::Stopped),
                    detail: String::new(),
                }
            },
            Event::Launched => {
                self.running = true;
                Reply {
                    command: Command::Rest,
                    phase: Some(Phase::Running),
                    detail: String::new(),
                }
            },
            Event::Failed(why) => {
                if self.retrying {
                    return Reply { command: Command::Rest, phase: None, detail: String::new() };
                }
                self.wanted = false;
                Reply { command: Command::Rest, phase: Some(Phase::Error), detail: why.clone() }
            },
            Event::Exited(code) => {
                if !self.running {
                    return Reply { command: Command::Rest, phase: None, detail: String::new() };
                }
                self.running = false;
                if !self.wanted {
                    return Reply {
                        command: Command::Rest,
                        phase: Some(Phase::Stopped),
                        detail: String::new(),
                    };
                }
                if self.restarts >= MAX_RESTARTS {
                    self.wanted = false;
                    return Reply {
                        command: Command::Rest,
                        phase: Some(Phase::Error),
                        detail: cat3("playit kapandı (", signed_decimal_of(*code).as_str(), ")"),
                    };
                }
                self.restarts = self.restarts + 1;
                self.retrying = true;
                let wait_secs: u64 = if self.restarts <= 1 {
                    1
                } else if self.restarts == 2 {
                    2
                } else {
                    4
                };
                Reply {
                    command: Command::Launch { port: self.last_port, wait_secs, replace: false },
                    phase: Some(Phase::Error),
                    detail: cat4(
                        "yeniden deneniyor ",
                        decimal_of(self.restarts as u64).as_str(),
                        "/",
                        decimal_of(MAX_RESTARTS as u64).as_str(),
                    ),
                }
            },
        }
    }
}

/// The state after the agent has ended and been started again `n` times.
pub open spec fn after_crashes(s: Supervisor, code: i32, n: nat) -> Supervisor
    decreases n,
{
    if n == 0 {
        s
    } else {
        next_state(
            next_state(after_crashes(s, code, (n - 1) as nat), Event::Exited(code)),
            Event::Launched,
        )
    }
}

/// An agent that keeps ending is started again until it has had its restarts, and then it is
/// given up: the next time that it ends, nothing is started.
pub proof fn law_agent_is_given_up(s: Supervisor, code: i32, n: nat)
    requires
        s.wf(),
        s.running,
        s.wanted,
        n <= MAX_RESTARTS - s.restarts,
    ensures
        after_crashes(s, code, n).wanted,
        after_crashes(s, code, n).running,
        after_crashes(s, code, n).restarts == s.restarts + n,
        command_for(after_crashes(s, code, n), Event::Exited(code)) is Launch <==> n < MAX_RESTARTS
            - s.restarts,
        n == MAX_RESTARTS - s.restarts ==> !next_state(
            after_crashes(s, code, n),
            Event::Exited(code),
        ).wanted,
    decreases n,
{
    if n > 0 {
        law_agent_is_given_up(s, code, (n - 1) as nat);
    }
}

/// Whatever happens, nothing is started unless the agent is wanted.
pub proof fn law_only_a_wanted_agent_is_started(s: Supervisor, event: Event)
    ensures
        command_for(s, event) is Launch ==> next_state(s, event).wanted,
        command_for(s, event) is Halt ==> !next_state(s, event).wanted && !next_state(
            s,
            event,
        ).running,
{
}

// ---------------------------------------------------------------------------------------------
// Laws
// ---------------------------------------------------------------------------------------------
/// What stands before the first white space of a text.
proof fn lemma_until_white(a: Seq<char>, t: Seq<char>)
    requires
        forall|i: int| 0 <= i < a.len() ==> !is_white(#[trigger] a[i]),
        t.len() > 0 ==> is_white(t.first()),
    ensures
        until_white(a + t) == a,
    decreases a.len(),
{
    if a.len() > 0 {
        let rest = a.drop_first();
        assert(!is_white(a[0]));
        assert forall|i: int| 0 <= i < rest.len() implies !is_white(#[trigger] rest[i]) by {
            assert(rest[i] == a[i + 1]);
        }
        lemma_until_white(rest, t);
        assert((a + t).first() == a[0]);
        assert((a + t).drop_first() == rest + t);
        assert(seq![a[0]] + rest == a);
    } else {
        assert(a + t == t);
    }
}

/// The address at which a tunnel is claimed is found wherever it first stands in a line, up to the
/// white space after it, and without the quotation marks and brackets at its end; in a line that does
/// not hold the beginning of such an address there is none.
#[verifier::spinoff_prover]
#[verifier::rlimit(60)]
pub proof fn law_claim(before: Seq<char>, code: Seq<char>, end: Seq<char>, rest: Seq<char>, line: Seq<char>)
    requires
        code.len() > 0,
        forall|i: int| 0 <= i < code.len() ==> !is_white(#[trigger] code[i]),
        code.last() != '"' && code.last() != '\'' && code.last() != ')' && code.last() != ']',
        forall|i: int|
            0 <= i < end.len() ==> #[trigger] end[i] == '"' || end[i] == '\'' || end[i] == ')' || end[i]
                == ']',
        rest.len() > 0 ==> is_white(rest.first()),
        forall|i: int|
            0 <= i < before.len() ==> !crate::text::occurs_at(
                before + "https://playit.gg/claim/"@ + code + end + rest,
                "https://playit.gg/claim/"@,
                i,
            ),
    ensures
        claim_in(before + "https://playit.gg/claim/"@ + code + end + rest) == Some(
            "https://playit.gg/claim/"@ + code,
        ),
        !crate::text::contains(line, "https://playit.gg/claim/"@) ==> claim_in(line) is None,
{
    let mark = "https://playit.gg/claim/"@;
    let whole = before + mark + code + end + rest;
    let n = before.len() as int;
    crate::text::lemma_find_contains(line, mark);
    lemma_find_from(whole, mark, 0);
    assert(whole.subrange(n, n + mark.len()) =~= mark);
    assert(crate::text::occurs_at(whole, mark, n));
    assert(find(whole, mark) == Some(n)) by {
        match find(whole, mark) {
            Some(k) => {
                if k < n {
                    assert(!crate::text::occurs_at(whole, mark, k));
                }
            },
            None => {},
        }
    }
    reveal_strlit("https://playit.gg/claim/");
    let url = mark + code;
    let word = url + end;
    assert forall|i: int| 0 <= i < word.len() implies !is_white(#[trigger] word[i]) by {
        if i < mark.len() {
            assert(word[i] == mark[i]);
        } else if i < url.len() {
            assert(word[i] == code[i - mark.len()]);
        } else {
            assert(word[i] == end[i - url.len()]);
        }
    }
    assert(whole.skip(n) =~= word + rest);
    lemma_until_white(word, rest);
    let set = wrapping();
    assert(set[0] == '"' && set[1] == '\'' && set[2] == ')' && set[3] == ']');
    assert forall|i: int| 0 <= i < end.len() implies set.contains(#[trigger] end[i]) by {
        assert(set.contains(set[0]) && set.contains(set[1]) && set.contains(set[2]) && set.contains(
            set[3],
        ));
    }
    assert(word.first() == 'h');
    let none = Seq::<char>::empty();
    crate::text::law_strip(none, word, end, set);
    assert(none + word == word);
    assert(!set.contains('h'));
    crate::text::law_strip(none, url, end, set);
    assert(url.last() == code.last());
    assert(!set.contains(url.last()));
}

/// Where a run of characters of host names begins and ends.
proof fn lemma_host_run(s: Seq<char>, a: int, b: int, i: int)
    requires
        0 <= a <= i <= b <= s.len(),
        forall|j: int| a <= j < b ==> is_host(#[trigger] s[j]),
        a > 0 ==> !is_host(s[a - 1]),
        b < s.len() ==> !is_host(s[b]),
    ensures
        host_start(s, i) == a,
        host_end(s, i) == b,
    decreases b - a,
{
    lemma_host_left(s, a, i);
    lemma_host_right(s, b, i);
}

proof fn lemma_host_left(s: Seq<char>, a: int, i: int)
    requires
        0 <= a <= i <= s.len(),
        forall|j: int| a <= j < i ==> is_host(#[trigger] s[j]),
        a > 0 ==> !is_host(s[a - 1]),
    ensures
        host_start(s, i) == a,
    decreases i - a,
{
    if i > a {
        assert(is_host(s[i - 1]));
        lemma_host_left(s, a, i - 1);
    }
}

proof fn lemma_host_right(s: Seq<char>, b: int, i: int)
    requires
        0 <= i <= b <= s.len(),
        forall|j: int| i <= j < b ==> is_host(#[trigger] s[j]),
        b < s.len() ==> !is_host(s[b]),
    ensures
        host_end(s, i) == b,
    decreases b - i,
{
    if i < b {
        assert(is_host(s[i]));
        lemma_host_right(s, b, i + 1);
    }
}

/// The address of a tunnel is the host name around the agent's domain, from the first to the last of
/// its characters, in small letters, with the port after it where there is one.
pub proof fn law_address_of_a_tunnel(before: Seq<char>, host: Seq<char>, rest: Seq<char>)
    requires
        host.len() > 0,
        forall|i: int|
            0 <= i < host.len() ==> {
                let c = #[trigger] host[i];
                'a' <= c <= 'z' || 'A' <= c <= 'Z' || '0' <= c <= '9' || c == '.' || c == '-'
            },
        host.first() != '.',
        host.last() != '.',
        before.len() > 0 ==> !is_host(before.last()),
        rest.len() > 0 ==> !is_host(rest.first()),
        domain_in(lower(before + host + rest)) is Some,
        before.len() <= domain_in(lower(before + host + rest))->0 < before.len() + host.len(),
    ensures
        address_in(before + host + rest) == Some(lower(host) + port_after(rest)),
{
    let line = before + host + rest;
    let low = lower(line);
    let a = before.len() as int;
    let b = a + host.len();
    let i = domain_in(low)->0;
    assert forall|j: int| a <= j < b implies is_host(#[trigger] low[j]) by {
        let c = host[j - a];
        assert(line[j] == c);
    }
    if a > 0 {
        assert(line[a - 1] == before.last());
        assert(!is_host(low[a - 1]));
    }
    if b < low.len() {
        assert(line[b] == rest.first());
        assert(!is_host(low[b]));
    }
    lemma_host_run(low, a, b, i);
    assert(low.subrange(a, b) =~= lower(host));
    let set = seq!['.'];
    assert(set[0] == '.');
    let none = Seq::<char>::empty();
    let lh = lower(host);
    assert(lh.first() != '.') by {
        assert(lh[0] == crate::text::lower_char(host[0]));
    }
    assert(lh.last() != '.') by {
        assert(lh[lh.len() - 1] == crate::text::lower_char(host[host.len() - 1]));
    }
    crate::text::law_strip(none, lh, none, set);
    assert(none + lh == lh && lh + none == lh);
    assert(!set.contains(lh.first()) && !set.contains(lh.last()));
    assert(line.skip(b) =~= rest);
}

/// The agent's domain is `.ply.gg`, wherever it first stands, or `.playit.gg` where that does not. A
/// port is two to five digits after a colon; fewer or more are none.
pub proof fn law_domain_and_port(line: Seq<char>, d: Seq<char>, rest: Seq<char>)
    requires
        forall|i: int| 0 <= i < d.len() ==> '0' <= #[trigger] d[i] <= '9',
        rest.len() > 0 ==> !('0' <= rest.first() <= '9'),
    ensures
        crate::text::contains(line, ".ply.gg"@) ==> domain_in(line) == find(line, ".ply.gg"@),
        !crate::text::contains(line, ".ply.gg"@) ==> domain_in(line) == find(line, ".playit.gg"@),
        2 <= d.len() <= 5 ==> port_after(seq![':'] + d + rest) == seq![':'] + d,
        d.len() < 2 || d.len() > 5 ==> port_after(seq![':'] + d + rest) == Seq::<char>::empty(),
        rest.len() == 0 || rest.first() != ':' ==> port_after(rest) == Seq::<char>::empty(),
{
    crate::text::lemma_find_contains(line, ".ply.gg"@);
    reveal_strlit(":");
    assert(":"@ =~= seq![':']);
    lemma_leading_of(d, rest);
    let all = seq![':'] + d + rest;
    crate::text::law_ends(":"@, d + rest);
    assert(":"@ + (d + rest) =~= all);
    if rest.len() == 0 || rest.first() != ':' {
        if starts_with(rest, ":"@) {
            assert(rest.take(1)[0] == ':');
        }
    }
}

proof fn lemma_leading_of(d: Seq<char>, rest: Seq<char>)
    requires
        forall|i: int| 0 <= i < d.len() ==> '0' <= #[trigger] d[i] <= '9',
        rest.len() > 0 ==> !('0' <= rest.first() <= '9'),
    ensures
        leading_digits(d + rest) == d,
    decreases d.len(),
{
    if d.len() > 0 {
        let t = d.drop_first();
        assert('0' <= d[0] <= '9');
        assert forall|i: int| 0 <= i < t.len() implies '0' <= #[trigger] t[i] <= '9' by {
            assert(t[i] == d[i + 1]);
        }
        lemma_leading_of(t, rest);
        assert((d + rest).first() == d[0]);
        assert((d + rest).drop_first() == t + rest);
        assert(seq![d[0]] + t == d);
    } else {
        assert(d + rest == rest);
    }
}

/// The file of a release is the first one that is called just so.
pub proof fn law_file_of_a_release(assets: Seq<JsonV>, want: Seq<char>)
    ensures
        match asset_place(assets, want, 0) {
            Some(i) => 0 <= i < assets.len() && assets[i].text("name"@) == Some(want) && forall|j: int|
                0 <= j < i ==> (#[trigger] assets[j]).text("name"@) != Some(want),
            None => forall|j: int|
                0 <= j < assets.len() ==> (#[trigger] assets[j]).text("name"@) != Some(want),
        },
{
    lemma_asset_place(assets, want, 0);
}

proof fn lemma_asset_place(assets: Seq<JsonV>, want: Seq<char>, i: int)
    requires
        0 <= i,
    ensures
        match asset_place(assets, want, i) {
            Some(k) => i <= k < assets.len() && assets[k].text("name"@) == Some(want) && forall|j: int|
                i <= j < k ==> (#[trigger] assets[j]).text("name"@) != Some(want),
            None => forall|j: int|
                i <= j < assets.len() ==> (#[trigger] assets[j]).text("name"@) != Some(want),
        },
    decreases assets.len() - i,
{
    if i < assets.len() && assets[i].text("name"@) != Some(want) {
        lemma_asset_place(assets, want, i + 1);
    }
}

/// A download is as far as its share of the whole, in whole per cent, and never beyond a hundred.
pub proof fn law_share_of_a_download(got: u64, total: u64)
    ensures
        total == 0 ==> percent(got, total) is None,
        total > 0 ==> percent(got, total) is Some && 0 <= percent(got, total)->0 <= 100,
        0 < total && got >= total && got <= u64::MAX / 100 ==> percent(got, total) == Some(100int),
        0 < total && got < total && got <= u64::MAX / 100 ==> {
            let p = percent(got, total)->0;
            p * total <= 100 * got < (p + 1) * total
        },
{
    if total > 0 {
        let h = if got * 100 > u64::MAX {
            u64::MAX as int
        } else {
            got * 100
        };
        let t = total as int;
        let p = h / t;
        assert(p * t <= h < (p + 1) * t && p >= 0) by (nonlinear_arith)
            requires
                p == h / t,
                t > 0,
                h >= 0,
        ;
        if got <= u64::MAX / 100 {
            assert(h == got * 100);
            if got >= total {
                assert(p >= 100) by (nonlinear_arith)
                    requires
                        h < (p + 1) * t,
                        h >= 100 * t,
                        t > 0,
                ;
            } else {
                assert(p < 100) by (nonlinear_arith)
                    requires
                        p * t <= h,
                        h < 100 * t,
                        t > 0,
                ;
            }
        }
    }
}

/// A download of less than a million bytes is refused. One whose release gives no checksum of the
/// kind is taken; else its checksum has to be that of the release, but for the case of its letters.
pub proof fn law_checking_a_download(len: nat, actual: Seq<char>, sum: Seq<char>, digest: Option<Seq<char>>)
    ensures
        len < 1_000_000 ==> fault(len, actual, digest) is Some,
        len >= 1_000_000 && digest is None ==> fault(len, actual, digest) is None,
        len >= 1_000_000 && digest is Some && !starts_with(digest->0, "sha256:"@) ==> fault(
            len,
            actual,
            digest,
        ) is None,
        len >= 1_000_000 ==> (fault(len, actual, Some("sha256:"@ + sum)) is None <==> lower(actual)
            == lower(sum)),
        len >= 1_000_000 && lower(actual) != lower(sum) ==> fault(len, actual, Some("sha256:"@ + sum))
            == Some("playit sağlama toplamı uyuşmadı"@),
        len < 1_000_000 ==> fault(len, actual, digest) == Some("playit dosyası eksik indi"@),
{
    crate::text::law_ends("sha256:"@, sum);
}

/// The phases have names in both languages.
pub proof fn law_names_of_phases()
    ensures
        phase_name(Phase::Idle, true) == "Hazır"@ && phase_name(Phase::Idle, false) == "Idle"@,
        phase_name(Phase::Downloading, true) == "İndiriliyor"@ && phase_name(Phase::Downloading, false)
            == "Downloading"@,
        phase_name(Phase::Running, true) == "Çalışıyor"@ && phase_name(Phase::Running, false)
            == "Running"@,
        phase_name(Phase::Stopped, true) == "Durdu"@ && phase_name(Phase::Stopped, false) == "Stopped"@,
        phase_name(Phase::Error, true) == "Hata"@ && phase_name(Phase::Error, false) == "Error"@,
{
}

/// Asking for the agent starts it at once, for the port that was asked for, and ends the one that
/// runs; stopping ends it, and it is not wanted any more.
pub proof fn law_asking_and_stopping(s: Supervisor, port: u16)
    ensures
        command_for(s, Event::Start(port)) == (Command::Launch { port, wait_secs: 0, replace: true }),
        next_state(s, Event::Start(port)).wanted,
        next_state(s, Event::Start(port)).last_port == port,
        next_state(s, Event::Start(port)).restarts == 0,
        !next_state(s, Event::Start(port)).running && !next_state(s, Event::Start(port)).retrying,
        command_for(s, Event::Stop) == (Command::Halt { quit: false }),
        command_for(s, Event::Disconnected) == (Command::Halt { quit: true }),
        !next_state(s, Event::Stop).wanted && !next_state(s, Event::Stop).running,
        !next_state(s, Event::Disconnected).wanted && !next_state(s, Event::Disconnected).running,
        phase_for(s, Event::Stop) == Some((Phase::Stopped, Seq::<char>::empty())),
        phase_for(s, Event::Launched) == Some((Phase::Running, Seq::<char>::empty())),
        next_state(s, Event::Launched) == (Supervisor { running: true, ..s }),
        command_for(s, Event::Launched) == Command::Rest,
{
}

/// An agent that is wanted and ends is started again, for the same port, after one, two and four
/// seconds; after three restarts it is given up, and the panel says with which code it ended. One that
/// is not wanted any more is not started again.
pub proof fn law_when_the_agent_ends(s: Supervisor, code: i32)
    requires
        s.running,
    ensures
        s.wanted && s.restarts == 0 ==> command_for(s, Event::Exited(code)) == (Command::Launch {
            port: s.last_port,
            wait_secs: 1,
            replace: false,
        }),
        s.wanted && s.restarts == 1 ==> command_for(s, Event::Exited(code)) == (Command::Launch {
            port: s.last_port,
            wait_secs: 2,
            replace: false,
        }),
        s.wanted && s.restarts == 2 ==> command_for(s, Event::Exited(code)) == (Command::Launch {
            port: s.last_port,
            wait_secs: 4,
            replace: false,
        }),
        s.wanted && s.restarts < 3 ==> next_state(s, Event::Exited(code)) == (Supervisor {
            running: false,
            restarts: (s.restarts + 1) as u32,
            retrying: true,
            ..s
        }),
        s.wanted && s.restarts >= 3 ==> command_for(s, Event::Exited(code)) == Command::Rest
            && !next_state(s, Event::Exited(code)).wanted && phase_for(s, Event::Exited(code)) == Some(
            (Phase::Error, "playit kapandı ("@ + signed_decimal(code as int) + ")"@),
        ),
        !s.wanted ==> command_for(s, Event::Exited(code)) == Command::Rest && phase_for(
            s,
            Event::Exited(code),
        ) == Some((Phase::Stopped, Seq::<char>::empty())),
        !next_state(s, Event::Exited(code)).running,
{
}

/// An agent that does not run cannot end, and a start that fails is said, unless it was a restart.
pub proof fn law_what_is_passed_over(s: Supervisor, code: i32, why: String)
    ensures
        !s.running ==> next_state(s, Event::Exited(code)) == s && command_for(s, Event::Exited(code))
            == Command::Rest && phase_for(s, Event::Exited(code)) is None,
        s.retrying ==> next_state(s, Event::Failed(why)) == s && phase_for(s, Event::Failed(why)) is None,
        !s.retrying ==> next_state(s, Event::Failed(why)) == (Supervisor { wanted: false, ..s })
            && phase_for(s, Event::Failed(why)) == Some((Phase::Error, why@)),
        command_for(s, Event::Failed(why)) == Command::Rest,
{
}

/// What a release says of its file's checksum is what it holds, and what is shown is the phase with
/// its detail.
pub proof fn law_what_is_held(asset: ReleaseAsset, reply: Reply)
    ensures
        asset.digest is Some ==> digest_of(asset) == Some(asset.digest->0@),
        asset.digest is None ==> digest_of(asset) is None,
        reply.phase is Some ==> reply.shown() == Some((reply.phase->0, reply.detail@)),
        reply.phase is None ==> reply.shown() is None,
{
}

} // verus!
