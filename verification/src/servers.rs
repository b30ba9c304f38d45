//! The list of servers that the panel manages.
use vstd::prelude::*;

use crate::address::{valid_port, valid_port_text};
use crate::numbers::{decimal, decimal_of};
use crate::ram::{ram_stored, ram_xmx, stored};
use crate::text::{cat2, is_empty, same, texts, trim, trim_text};

verus! {

/// What the panel knows of a server.
pub struct ServerMetadata {
    pub id: String,
    pub name: String,
    pub software: String,
    pub version: String,
    pub port: String,
    pub ram: String,
    pub selected_java: String,
    pub timezone: String,
    pub join_host: String,
    pub backup_every_min: u32,
}

/// What is known of a server.
pub struct ServerV {
    pub id: Seq<char>,
    pub name: Seq<char>,
    pub software: Seq<char>,
    pub version: Seq<char>,
    pub port: Seq<char>,
    pub ram: Seq<char>,
    pub selected_java: Seq<char>,
    pub timezone: Seq<char>,
    pub join_host: Seq<char>,
    pub backup_every_min: u32,
}

impl View for ServerMetadata {
    type V = ServerV;

    open spec fn view(&self) -> ServerV {
        ServerV {
            id: self.id@,
            name: self.name@,
            software: self.software@,
            version: self.version@,
            port: self.port@,
            ram: self.ram@,
            selected_java: self.selected_java@,
            timezone: self.timezone@,
            join_host: self.join_host@,
            backup_every_min: self.backup_every_min,
        }
    }
}

/// What is known of each of `list`.
pub open spec fn servers(list: Seq<ServerMetadata>) -> Seq<ServerV> {
    Seq::new(list.len(), |i: int| list[i]@)
}

/// The place of the first server from `i` on whose identifier is `id`.
pub open spec fn place_of(list: Seq<ServerV>, id: Seq<char>, i: int) -> Option<int>
    decreases list.len() - i,
{
    if i < 0 || i >= list.len() {
        None
    } else if list[i].id == id {
        Some(i)
    } else {
        place_of(list, id, i + 1)
    }
}

/// One thing that can be changed about a server.
pub enum Change {
    Ram { amount: String, unit: String },
    Timezone(String),
    Java(String),
    Software { software: String, version: String },
    JoinHost(String),
    BackupEvery(u32),
}

/// The time zone that is kept for what was typed in.
pub open spec fn timezone_kept(typed: Seq<char>) -> Seq<char> {
    if trim(typed).len() == 0 {
        "Europe/Istanbul"@
    } else {
        trim(typed)
    }
}

/// The server `s` with one thing changed.
pub open spec fn changed(s: ServerV, change: Change) -> ServerV {
    match change {
        Change::Ram { amount, unit } => ServerV { ram: stored(amount@, unit@), ..s },
        Change::Timezone(tz) => ServerV { timezone: timezone_kept(tz@), ..s },
        Change::Java(java) => ServerV { selected_java: java@, ..s },
        Change::Software { software, version } => ServerV {
            software: software@,
            version: version@,
            ..s
        },
        Change::JoinHost(host) => ServerV { join_host: host@, ..s },
        Change::BackupEvery(minutes) => ServerV { backup_every_min: minutes, ..s },
    }
}

/// The list with one thing changed about the first server that is `id`.
pub open spec fn list_changed(list: Seq<ServerV>, id: Seq<char>, change: Change) -> Seq<ServerV> {
    match place_of(list, id, 0) {
        Some(i) => list.update(i, changed(list[i], change)),
        None => list,
    }
}

/// The place of the first server that is `id`.
pub fn find_server(list: &Vec<ServerMetadata>, id: &str) -> (r: Option<usize>)
    ensures
        match r {
            Some(i) => i < list@.len() && place_of(servers(list@), id@, 0) == Some(i as int),
            None => place_of(servers(list@), id@, 0) is None,
        },
{
    let n: usize = list.len();
    let ghost all = servers(list@);
    for i in 0..n
        invariant
            n == list@.len(),
            all == servers(list@),
            place_of(all, id@, 0) == place_of(all, id@, i as int),
    {
        assert(all[i as int] == list@[i as int]@);
        if same(list[i].id.as_str(), id) {
            return Some(i);
        }
    }
    None
}

/// The time zone that is kept for what was typed in.
pub fn kept_timezone(typed: &str) -> (r: String)
    ensures
        r@ == timezone_kept(typed@),
{
    let t = trim_text(typed);
    if is_empty(t.as_str()) {
        "Europe/Istanbul".to_owned()
    } else {
        t
    }
}

/// The server `s` with one thing changed.
fn apply(s: ServerMetadata, change: &Change) -> (r: ServerMetadata)
    ensures
        r@ == changed(s@, *change),
{
    let mut s = s;
    match change {
        Change::Ram { amount, unit } => {
            s.ram = ram_stored(amount.as_str(), unit.as_str());
        },
        Change::Timezone(tz) => {
            s.timezone = kept_timezone(tz.as_str());
        },
        Change::Java(java) => {
            s.selected_java = java.clone();
        },
        Change::Software { software, version } => {
            s.software = software.clone();
            s.version = version.clone();
        },
        Change::JoinHost(host) => {
            s.join_host = host.clone();
        },
        Change::BackupEvery(minutes) => {
            s.backup_every_min = *minutes;
        },
    }
    s
}

/// Changes one thing about the first server that is `id`, and says whether there is one.
pub fn change_server(list: &mut Vec<ServerMetadata>, id: &str, change: &Change) -> (r: bool)
    ensures
        servers(final(list)@) == list_changed(servers(old(list)@), id@, *change),
        r == (place_of(servers(old(list)@), id@, 0) is Some),
{
    let ghost all = servers(list@);
    match find_server(list, id) {
        Some(i) => {
            let s = list.remove(i);
            assert(s@ == all[i as int]);
            let s = apply(s, change);
            let ghost new = s@;
            list.insert(i, s);
            assert(servers(list@) == all.update(i as int, new));
            true
        },
        None => false,
    }
}

/// A server with the usual settings.
pub open spec fn usual(id: Seq<char>, name: Seq<char>, port: Seq<char>) -> ServerV {
    ServerV {
        id,
        name,
        software: "Purpur"@,
        version: "26.2"@,
        port,
        ram: "2G"@,
        selected_java: "java25"@,
        timezone: "Europe/Istanbul"@,
        join_host: Seq::empty(),
        backup_every_min: 0,
    }
}

fn usual_server(id: String, name: String, port: String) -> (r: ServerMetadata)
    ensures
        r@ == usual(id@, name@, port@),
{
    ServerMetadata {
        id,
        name,
        software: "Purpur".to_owned(),
        version: "26.2".to_owned(),
        port,
        ram: "2G".to_owned(),
        selected_java: "java25".to_owned(),
        timezone: "Europe/Istanbul".to_owned(),
        join_host: String::new(),
        backup_every_min: 0,
    }
}

/// The server that the panel begins with.
pub fn default_server() -> (r: ServerMetadata)
    ensures
        r@ == usual("survival"@, "Survival Dünyası"@, "25565"@),
{
    usual_server("survival".to_owned(), "Survival Dünyası".to_owned(), "25565".to_owned())
}

/// A new server for a list of `count` servers: none where the name is blank.
pub fn new_server(count: usize, name: &str, port: &str) -> (r: Option<ServerMetadata>)
    requires
        count < usize::MAX,
    ensures
        match r {
            Some(s) => trim(name@).len() > 0 && s@ == usual(
                "server-"@ + decimal((count + 1) as nat),
                trim(name@),
                valid_port_text(port@),
            ),
            None => trim(name@).len() == 0,
        },
{
    let name = trim_text(name);
    if is_empty(name.as_str()) {
        return None;
    }
    let id = cat2("server-", decimal_of((count + 1) as u64).as_str());
    Some(usual_server(id, name, valid_port(port)))
}

/// The list without the servers that are `id`.
pub open spec fn without(list: Seq<ServerV>, id: Seq<char>) -> Seq<ServerV>
    decreases list.len(),
{
    if list.len() == 0 {
        Seq::empty()
    } else if list.last().id == id {
        without(list.drop_last(), id)
    } else {
        without(list.drop_last(), id).push(list.last())
    }
}

/// Takes the servers that are `id` off the list.
pub fn delete_server(list: &mut Vec<ServerMetadata>, id: &str)
    ensures
        servers(final(list)@) == without(servers(old(list)@), id@),
{
    let n: usize = list.len();
    let ghost all = servers(list@);
    proof {
        assert(without(all.take(0), id@) == Seq::<ServerV>::empty());
        assert(without(all.take(0), id@) + all.skip(0) == all);
    }
    let mut i: usize = 0;
    for k in 0..n
        invariant
            all.len() == n,
            servers(list@) == without(all.take(k as int), id@) + all.skip(k as int),
            i == without(all.take(k as int), id@).len(),
            i <= k,
            list@.len() == i + n - k,
    {
        let ghost here = servers(list@);
        let ghost kept = without(all.take(k as int), id@);
        let ghost l0 = list@;
        proof {
            assert(all.take(k + 1).drop_last() == all.take(k as int));
            assert(all.take(k + 1).last() == all[k as int]);
            assert(here[i as int] == all.skip(k as int)[0]);
            assert(here[i as int] == l0[i as int]@);
        }
        if same(list[i].id.as_str(), id) {
            let _ = list.remove(i);
            proof {
                let after = servers(list@);
                assert forall|j: int| 0 <= j < after.len() implies after[j] == (kept + all.skip(
                    k + 1,
                ))[j] by {
                    if j < i {
                        assert(list@[j] == l0[j]);
                        assert(here[j] == kept[j]);
                    } else {
                        assert(list@[j] == l0[j + 1]);
                        assert(here[j + 1] == all.skip(k as int)[j + 1 - i]);
                    }
                }
                assert(after == kept + all.skip(k + 1));
            }
        } else {
            i = i + 1;
            proof {
                assert(kept.push(all[k as int]) + all.skip(k + 1) == kept + all.skip(k as int));
            }
        }
    }
    proof {
        assert(all.take(n as int) == all);
        assert(without(all, id@) + all.skip(n as int) == without(all, id@));
    }
}

/// The port of the first server that is `id`, or `otherwise` where there is none.
pub fn port_of(list: &Vec<ServerMetadata>, id: &str, otherwise: &str) -> (r: String)
    ensures
        r@ == match place_of(servers(list@), id@, 0) {
            Some(i) => list@[i].port@,
            None => otherwise@,
        },
{
    match find_server(list, id) {
        Some(i) => list[i].port.clone(),
        None => otherwise.to_owned(),
    }
}

/// The Java that the first server that is `id` runs on.
pub fn java_of(list: &Vec<ServerMetadata>, id: &str) -> (r: String)
    ensures
        r@ == match place_of(servers(list@), id@, 0) {
            Some(i) => list@[i].selected_java@,
            None => "java25"@,
        },
{
    match find_server(list, id) {
        Some(i) => list[i].selected_java.clone(),
        None => "java25".to_owned(),
    }
}

/// What Java is started with, given the memory and the time zone that were typed in.
pub open spec fn java_arguments(
    amount: Seq<char>,
    unit: Seq<char>,
    typed_zone: Seq<char>,
) -> Seq<Seq<char>> {
    let zone = if trim(typed_zone).len() == 0 {
        "Europe/Istanbul"@
    } else {
        typed_zone
    };
    seq![
        "-Xms128M"@,
        "-Xmx"@ + stored(amount, unit),
        "-Duser.timezone="@ + zone,
        "-jar"@,
        "server.jar"@,
        "nogui"@,
    ]
}

/// What Java is started with.
pub fn java_args(amount: &str, unit: &str, typed_zone: &str) -> (r: Vec<String>)
    ensures
        texts(r@) == java_arguments(amount@, unit@, typed_zone@),
{
    let zone = if is_empty(trim_text(typed_zone).as_str()) {
        "Europe/Istanbul".to_owned()
    } else {
        typed_zone.to_owned()
    };
    let xmx = ram_xmx(amount, unit);
    let tz = cat2("-Duser.timezone=", zone.as_str());
    let mut out: Vec<String> = Vec::new();
    out.push("-Xms128M".to_owned());
    out.push(xmx);
    out.push(tz);
    out.push("-jar".to_owned());
    out.push("server.jar".to_owned());
    out.push("nogui".to_owned());
    assert(texts(out@) == java_arguments(amount@, unit@, typed_zone@));
    out
}

// ---------------------------------------------------------------------------------------------
// Laws
// ---------------------------------------------------------------------------------------------
proof fn lemma_place_of(list: Seq<ServerV>, id: Seq<char>, i: int)
    requires
        0 <= i,
    ensures
        match place_of(list, id, i) {
            Some(k) => i <= k < list.len() && list[k].id == id && forall|j: int|
                i <= j < k ==> (#[trigger] list[j]).id != id,
            None => forall|j: int| i <= j < list.len() ==> (#[trigger] list[j]).id != id,
        },
    decreases list.len() - i,
{
    if i < list.len() && list[i].id != id {
        lemma_place_of(list, id, i + 1);
    }
}

/// A change keeps the servers and their order: the same identifiers stand at the same places,
/// and every server but the changed one is as it was.
pub proof fn law_change_keeps_the_others(list: Seq<ServerV>, id: Seq<char>, change: Change)
    ensures
        list_changed(list, id, change).len() == list.len(),
        forall|i: int|
            #![trigger list[i]]
            0 <= i < list.len() ==> list_changed(list, id, change)[i].id == list[i].id,
        forall|i: int|
            #![trigger list[i]]
            0 <= i < list.len() && list[i].id != id ==> list_changed(list, id, change)[i]
                == list[i],
{
    lemma_place_of(list, id, 0);
}

/// A server that was deleted is not in the list any more, and every other one is.
pub proof fn law_deleted_is_gone(list: Seq<ServerV>, id: Seq<char>)
    ensures
        place_of(without(list, id), id, 0) is None,
        forall|i: int|
            #![trigger list[i]]
            0 <= i < list.len() && list[i].id != id ==> without(list, id).contains(list[i]),
    decreases list.len(),
{
    lemma_without(list, id);
    lemma_place_of(without(list, id), id, 0);
}

proof fn lemma_without(list: Seq<ServerV>, id: Seq<char>)
    ensures
        forall|j: int|
            0 <= j < without(list, id).len() ==> (#[trigger] without(list, id)[j]).id != id,
        forall|i: int|
            #![trigger list[i]]
            0 <= i < list.len() && list[i].id != id ==> without(list, id).contains(list[i]),
    decreases list.len(),
{
    if list.len() > 0 {
        let init = list.drop_last();
        let w = without(init, id);
        lemma_without(init, id);
        assert forall|j: int| 0 <= j < without(list, id).len() implies (#[trigger] without(
            list,
            id,
        )[j]).id != id by {
            if j < w.len() {
                assert(without(list, id)[j] == w[j]);
            }
        }
        assert forall|i: int|
            #![trigger list[i]]
            0 <= i < list.len() && list[i].id != id implies without(list, id).contains(
            list[i],
        ) by {
            if i < init.len() {
                assert(init[i] == list[i]);
                assert(w.contains(list[i]));
                let j = choose|j: int| 0 <= j < w.len() && w[j] == list[i];
                assert(without(list, id)[j] == list[i]);
            } else {
                assert(without(list, id)[w.len() as int] == list[i]);
            }
        }
    }
}

/// The place of a server is that of the first one with its identifier.
pub proof fn law_place_of_a_server(list: Seq<ServerV>, id: Seq<char>)
    ensures
        match place_of(list, id, 0) {
            Some(k) => 0 <= k < list.len() && list[k].id == id && forall|j: int|
                0 <= j < k ==> (#[trigger] list[j]).id != id,
            None => forall|j: int| 0 <= j < list.len() ==> (#[trigger] list[j]).id != id,
        },
{
    lemma_place_of(list, id, 0);
}

/// A change sets what it says it sets, of the first server with the identifier, and leaves all else
/// as it is.
pub proof fn law_change_is_made(list: Seq<ServerV>, id: Seq<char>, change: Change, k: int)
    requires
        0 <= k < list.len(),
        list[k].id == id,
        forall|j: int| 0 <= j < k ==> (#[trigger] list[j]).id != id,
    ensures
        ({
            let s = list[k];
            let r = list_changed(list, id, change)[k];
            &&& r.id == s.id && r.name == s.name && r.port == s.port
            &&& r.ram == (match change {
                Change::Ram { amount, unit } => stored(amount@, unit@),
                _ => s.ram,
            })
            &&& r.timezone == (match change {
                Change::Timezone(tz) => if trim(tz@).len() > 0 {
                    trim(tz@)
                } else {
                    "Europe/Istanbul"@
                },
                _ => s.timezone,
            })
            &&& r.selected_java == (match change {
                Change::Java(java) => java@,
                _ => s.selected_java,
            })
            &&& r.software == (match change {
                Change::Software { software, version } => software@,
                _ => s.software,
            })
            &&& r.version == (match change {
                Change::Software { software, version } => version@,
                _ => s.version,
            })
            &&& r.join_host == (match change {
                Change::JoinHost(host) => host@,
                _ => s.join_host,
            })
            &&& r.backup_every_min == (match change {
                Change::BackupEvery(minutes) => minutes,
                _ => s.backup_every_min,
            })
            &&& forall|i: int|
                0 <= i < list.len() && i != k ==> list_changed(list, id, change)[i] == #[trigger] list[i]
        }),
{
    lemma_place_of(list, id, 0);
    match place_of(list, id, 0) {
        Some(i) => {
            if i < k {
                assert(list[i].id != id);
            } else if k < i {
                assert(list[k].id != id);
            }
        },
        None => {
            assert(list[k].id != id);
        },
    }
}

/// Deleting a server leaves every other server on the list, in the same order, and no more.
pub proof fn law_deleting_keeps_the_others(list: Seq<ServerV>, id: Seq<char>)
    ensures
        without(list, id) == list.filter(|s: ServerV| s.id != id),
    decreases list.len(),
{
    reveal(Seq::filter);
    if list.len() > 0 {
        law_deleting_keeps_the_others(list.drop_last(), id);
    }
}

/// A server begins with what it is called, its port and the usual settings: no name to join by, and
/// no backups by themselves.
pub proof fn law_usual_settings(id: Seq<char>, name: Seq<char>, port: Seq<char>)
    ensures
        ({
            let s = usual(id, name, port);
            &&& s.id == id && s.name == name && s.port == port
            &&& s.software == "Purpur"@ && s.version == "26.2"@ && s.ram == "2G"@
            &&& s.selected_java == "java25"@ && s.timezone == "Europe/Istanbul"@
            &&& s.join_host.len() == 0 && s.backup_every_min == 0
        }),
{
}

/// Java is started with the memory and the time zone that were chosen, and runs the server without a
/// window of its own.
pub proof fn law_how_java_is_started(amount: Seq<char>, unit: Seq<char>, zone: Seq<char>)
    ensures
        ({
            let args = java_arguments(amount, unit, zone);
            &&& args.len() == 6
            &&& args[0] == "-Xms128M"@
            &&& args[1] == "-Xmx"@ + stored(amount, unit)
            &&& trim(zone).len() > 0 ==> args[2] == "-Duser.timezone="@ + zone
            &&& trim(zone).len() == 0 ==> args[2] == "-Duser.timezone="@ + "Europe/Istanbul"@
            &&& args[3] == "-jar"@ && args[4] == "server.jar"@ && args[5] == "nogui"@
        }),
{
}

/// The list is seen server by server, with all that is known of each.
pub proof fn law_rows_of_servers(list: Seq<ServerMetadata>)
    ensures
        servers(list).len() == list.len(),
        forall|i: int|
            0 <= i < list.len() ==> {
                let s = #[trigger] servers(list)[i];
                &&& s.id == list[i].id@ && s.name == list[i].name@ && s.software == list[i].software@
                &&& s.version == list[i].version@ && s.port == list[i].port@ && s.ram == list[i].ram@
                &&& s.selected_java == list[i].selected_java@ && s.timezone == list[i].timezone@
                &&& s.join_host == list[i].join_host@ && s.backup_every_min == list[i].backup_every_min
            },
{
}

} // verus!
