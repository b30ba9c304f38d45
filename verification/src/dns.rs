//! The server's name in the DNS: which zone it belongs to, which records are written.
use vstd::prelude::*;
use vstd::utf8::encode_utf8;

use crate::address::{host_fault, host_form, valid_hostname};
use crate::cloud::first_item;
use crate::json::{json_views, lemma_json_views, Json, JsonV};
use crate::numbers::{decimal, decimal_of};
use crate::text::{cat2, cat3, cat4, cat5, chars_of, ends, ends_with, is_empty, same, trim, trim_text};

verus! {

// ---------------------------------------------------------------------------------------------
// Answers
// ---------------------------------------------------------------------------------------------
/// Whether an answer says that the request succeeded; where it does not say, its status does.
pub open spec fn succeeded(json: JsonV, status_ok: bool) -> bool {
    match json.get("success"@) {
        Some(v) => match v.as_bool() {
            Some(b) => b,
            None => status_ok,
        },
        None => status_ok,
    }
}

/// Why a request was refused.
pub open spec fn complaint(json: JsonV) -> Seq<char> {
    let said = match first_item(json.items("errors"@)) {
        Some(e) => e.text("message"@),
        None => None,
    };
    match said {
        Some(s) => s,
        None => "Cloudflare reddetti"@,
    }
}

/// The first item of the list in the field `key`.
fn first_in<'a>(json: &'a Json, key: &str) -> (r: Option<&'a Json>)
    ensures
        match r {
            Some(v) => first_item(json@.items(key@)) == Some(v@),
            None => first_item(json@.items(key@)) is None,
        },
{
    match json.items(key) {
        Some(list) => {
            proof {
                lemma_json_views(list@);
            }
            if list.len() > 0 {
                assert(json_views(list@)[0] == list@[0]@);
                Some(&list[0])
            } else {
                None
            }
        },
        None => None,
    }
}

/// Whether an answer says that the request succeeded, or why not.
pub fn cf_answer(json: &Json, status_ok: bool) -> (r: Result<(), String>)
    ensures
        match r {
            Ok(_) => succeeded(json@, status_ok),
            Err(e) => !succeeded(json@, status_ok) && e@ == complaint(json@),
        },
{
    let success = match json.get("success") {
        Some(v) => match v.as_bool() {
            Some(b) => b,
            None => status_ok,
        },
        None => status_ok,
    };
    if success {
        return Ok(());
    }
    if let Some(e) = first_in(json, "errors") {
        if let Some(s) = e.text("message") {
            return Err(s);
        }
    }
    Err("Cloudflare reddetti".to_owned())
}

// ---------------------------------------------------------------------------------------------
// Zones
// ---------------------------------------------------------------------------------------------
/// A zone that a name belongs to.
pub struct ZoneV {
    pub name: Seq<char>,
    pub id: Seq<char>,
}

/// Whether `host` belongs to the zone `name`.
pub open spec fn belongs(host: Seq<char>, name: Seq<char>) -> bool {
    host == name || ends_with(host, "."@ + name)
}

/// The zone `z`, where it has a name and an identifier and `host` belongs to it.
pub open spec fn zone_for(z: JsonV, host: Seq<char>) -> Option<ZoneV> {
    match (z.text("name"@), z.text("id"@)) {
        (Some(name), Some(id)) => if belongs(host, name) {
            Some(ZoneV { name, id })
        } else {
            None
        },
        _ => None,
    }
}

/// The zone among `zones` that `host` belongs to: the one with the longest name, and of several
/// the last.
pub open spec fn best_zone(zones: Seq<JsonV>, host: Seq<char>) -> Option<ZoneV>
    decreases zones.len(),
{
    if zones.len() == 0 {
        None
    } else {
        let before = best_zone(zones.drop_last(), host);
        match zone_for(zones.last(), host) {
            Some(z) => match before {
                Some(b) => if encode_utf8(z.name).len() >= encode_utf8(b.name).len() {
                    Some(z)
                } else {
                    Some(b)
                },
                None => Some(z),
            },
            None => before,
        }
    }
}

/// A zone with a name and an identifier.
struct Zone {
    name: String,
    id: String,
}

fn zone_of(z: &Json, host: &str) -> (r: Option<Zone>)
    ensures
        match r {
            Some(z2) => zone_for(z@, host@) == Some(ZoneV { name: z2.name@, id: z2.id@ }),
            None => zone_for(z@, host@) is None,
        },
{
    match (z.text("name"), z.text("id")) {
        (Some(name), Some(id)) => {
            let suffix = cat2(".", name.as_str());
            if same(host, name.as_str()) || ends(&chars_of(host), &chars_of(suffix.as_str())) {
                Some(Zone { name, id })
            } else {
                None
            }
        },
        _ => None,
    }
}

/// The identifier of the zone that `host` belongs to.
pub fn pick_zone(zones: &Json, host: &str) -> (r: Result<String, String>)
    ensures
        match r {
            Ok(id) => zones@.items("result"@) is Some && best_zone(
                zones@.items("result"@)->0,
                host@,
            ) is Some && id@ == best_zone(zones@.items("result"@)->0, host@)->0.id,
            Err(e) => if zones@.items("result"@) is None {
                e@ == "Cloudflare bölge listesi boş."@
            } else {
                best_zone(zones@.items("result"@)->0, host@) is None && e@
                    == "Bu alan adı token'daki bir Cloudflare bölgesine ait değil."@
            },
        },
{
    let list = match zones.items("result") {
        Some(l) => l,
        None => {
            return Err("Cloudflare bölge listesi boş.".to_owned());
        },
    };
    let n: usize = list.len();
    let ghost all = json_views(list@);
    proof {
        lemma_json_views(list@);
    }
    let mut best: Option<Zone> = None;
    for i in 0..n
        invariant
            n == list@.len(),
            all == json_views(list@),
            all.len() == n,
            forall|j: int| 0 <= j < n ==> #[trigger] all[j] == list@[j]@,
            match best {
                Some(b) => best_zone(all.take(i as int), host@) == Some(
                    ZoneV { name: b.name@, id: b.id@ },
                ),
                None => best_zone(all.take(i as int), host@) is None,
            },
    {
        assert(all.take(i + 1).drop_last() == all.take(i as int));
        assert(all.take(i + 1).last() == list@[i as int]@);
        if let Some(z) = zone_of(&list[i], host) {
            let better = match &best {
                Some(b) => z.name.as_str().as_bytes().len() >= b.name.as_str().as_bytes().len(),
                None => true,
            };
            if better {
                best = Some(z);
            }
        }
    }
    assert(all.take(n as int) == all);
    match best {
        Some(z) => Ok(z.id),
        None => Err("Bu alan adı token'daki bir Cloudflare bölgesine ait değil.".to_owned()),
    }
}

/// The zone that is picked is one that the name belongs to, and no zone that it belongs to has a
/// longer name.
pub proof fn law_longest_zone(zones: Seq<JsonV>, host: Seq<char>)
    ensures
        match best_zone(zones, host) {
            Some(b) => belongs(host, b.name) && forall|i: int|
                0 <= i < zones.len() ==> match zone_for(#[trigger] zones[i], host) {
                    Some(z) => encode_utf8(z.name).len() <= encode_utf8(b.name).len(),
                    None => true,
                },
            None => forall|i: int|
                0 <= i < zones.len() ==> zone_for(#[trigger] zones[i], host) is None,
        },
    decreases zones.len(),
{
    if zones.len() > 0 {
        let init = zones.drop_last();
        law_longest_zone(init, host);
        assert forall|i: int| 0 <= i < zones.len() implies match best_zone(zones, host) {
            Some(b) => match zone_for(#[trigger] zones[i], host) {
                Some(z) => encode_utf8(z.name).len() <= encode_utf8(b.name).len(),
                None => true,
            },
            None => zone_for(zones[i], host) is None,
        } by {
            if i < init.len() {
                assert(init[i] == zones[i]);
            }
        }
    }
}

// ---------------------------------------------------------------------------------------------
// Records
// ---------------------------------------------------------------------------------------------
/// The name of the record that says where Minecraft is reached.
pub fn srv_name(host: &str) -> (r: String)
    ensures
        r@ == "_minecraft._tcp."@ + host@,
{
    cat2("_minecraft._tcp.", host)
}

/// The address that looks a record up.
pub fn lookup_url(zone_id: &str, kind: &str, name: &str) -> (r: String)
    ensures
        r@ == "https://api.cloudflare.com/client/v4/zones/"@ + zone_id@ + "/dns_records?type="@
            + kind@ + "&name="@ + name@,
{
    let mut url = cat5(
        "https://api.cloudflare.com/client/v4/zones/",
        zone_id,
        "/dns_records?type=",
        kind,
        "&name=",
    );
    url.append(name);
    url
}

/// A number as a JSON value.
pub open spec fn json_number(n: nat) -> JsonV {
    JsonV::Number { text: decimal(n), signed: Some(n as i64), unsigned: Some(n as u64) }
}

fn number_value(n: u16) -> (r: Json)
    ensures
        r@ == json_number(n as nat),
{
    Json::Number { text: decimal_of(n as u64), signed: Some(n as i64), unsigned: Some(n as u64) }
}

/// The record that gives a name an address.
pub open spec fn a_record(host: Seq<char>, ip: Seq<char>) -> JsonV {
    JsonV::Null.with("type"@, JsonV::Str("A"@)).with("name"@, JsonV::Str(host)).with(
        "content"@,
        JsonV::Str(ip),
    ).with("ttl"@, json_number(120)).with("proxied"@, JsonV::Bool(false))
}

/// The record that gives a name an address.
pub fn a_body(host: &str, ip: &str) -> (r: Json)
    ensures
        r@ == a_record(host@, ip@),
{
    Json::Null.with("type", Json::Str("A".to_owned())).with(
        "name",
        Json::Str(host.to_owned()),
    ).with("content", Json::Str(ip.to_owned())).with("ttl", number_value(120)).with(
        "proxied",
        Json::Bool(false),
    )
}

/// The record that says where Minecraft is reached.
pub open spec fn srv_record(host: Seq<char>, port: u16) -> JsonV {
    JsonV::Null.with("type"@, JsonV::Str("SRV"@)).with(
        "name"@,
        JsonV::Str("_minecraft._tcp."@ + host),
    ).with("ttl"@, json_number(120)).with(
        "data"@,
        JsonV::Null.with("priority"@, json_number(0)).with("weight"@, json_number(5)).with(
            "port"@,
            json_number(port as nat),
        ).with("target"@, JsonV::Str(host)),
    )
}

/// The record that says where Minecraft is reached.
pub fn srv_body(host: &str, port: u16) -> (r: Json)
    ensures
        r@ == srv_record(host@, port),
{
    let data = Json::Null.with("priority", number_value(0)).with("weight", number_value(5)).with(
        "port",
        number_value(port),
    ).with("target", Json::Str(host.to_owned()));
    Json::Null.with("type", Json::Str("SRV".to_owned())).with(
        "name",
        Json::Str(srv_name(host)),
    ).with("ttl", number_value(120)).with("data", data)
}

/// How a record is written: a new one is added, one that is there is replaced.
pub struct RecordRequest {
    pub replace: bool,
    pub url: String,
}

/// The identifier of the record that was found.
pub open spec fn record_found(json: JsonV) -> Option<Seq<char>> {
    match first_item(json.items("result"@)) {
        Some(v) => v.text("id"@),
        None => None,
    }
}

/// How a record of a zone is written, given what was found when it was looked up.
pub fn record_request(zone_id: &str, existing: &Json) -> (r: RecordRequest)
    ensures
        r.replace == (record_found(existing@) is Some),
        r.url@ == (match record_found(existing@) {
            Some(id) => "https://api.cloudflare.com/client/v4/zones/"@ + zone_id@
                + "/dns_records/"@ + id,
            None => "https://api.cloudflare.com/client/v4/zones/"@ + zone_id@ + "/dns_records"@,
        }),
{
    if let Some(v) = first_in(existing, "result") {
        if let Some(id) = v.text("id") {
            return RecordRequest {
                replace: true,
                url: cat4(
                    "https://api.cloudflare.com/client/v4/zones/",
                    zone_id,
                    "/dns_records/",
                    id.as_str(),
                ),
            };
        }
    }
    RecordRequest {
        replace: false,
        url: cat3("https://api.cloudflare.com/client/v4/zones/", zone_id, "/dns_records"),
    }
}

/// What a request to write the records needs, from what was typed: the host name and the token.
/// A token that is missing is complained about in the panel's language.
pub fn check_publish(host: &str, token: &str, turkish: bool) -> (r: Result<(String, String), String>)
    ensures
        ({
            let name = host_form(host@);
            let key = trim(token@);
            match r {
                Ok((h, t)) => host_fault(name) is None && key.len() > 0 && h@ == name && t@ == key,
                Err(e) => match host_fault(name) {
                    Some(fault) => e@ == fault.text(),
                    None => key.len() == 0 && e@ == no_token(turkish),
                },
            }
        }),
{
    let name = match valid_hostname(host) {
        Ok(name) => name,
        Err(fault) => {
            return Err(fault.message());
        },
    };
    let key = trim_text(token);
    if is_empty(key.as_str()) {
        return Err(
            if turkish {
                "Cloudflare token yok. DNS → Edit izni olan bir token yapıştır.".to_owned()
            } else {
                "Paste a Cloudflare token with DNS edit permission.".to_owned()
            },
        );
    }
    Ok((name, key))
}

/// What is said where no token was given.
pub open spec fn no_token(turkish: bool) -> Seq<char> {
    if turkish {
        "Cloudflare token yok. DNS → Edit izni olan bir token yapıştır."@
    } else {
        "Paste a Cloudflare token with DNS edit permission."@
    }
}

/// What is said once both records were written.
pub fn published(host: &str) -> (r: String)
    ensures
        r@ == host@ + " için A ve SRV yazıldı. Oyuncu port yazmadan "@ + host@ + " girer."@,
{
    cat4(host, " için A ve SRV yazıldı. Oyuncu port yazmadan ", host, " girer.")
}

// ---------------------------------------------------------------------------------------------
// Laws
// ---------------------------------------------------------------------------------------------
/// An answer says itself whether the request succeeded; where it does not, its status says it. What
/// is complained about is the first error that is named.
pub proof fn law_answers(json: JsonV, status_ok: bool, b: bool)
    ensures
        json.get("success"@) == Some(JsonV::Bool(b)) ==> succeeded(json, status_ok) == b,
        json.get("success"@) is None ==> succeeded(json, status_ok) == status_ok,
        json.items("errors"@) is Some && json.items("errors"@)->0.len() > 0 && json.items(
            "errors"@,
        )->0[0].text("message"@) is Some ==> complaint(json) == json.items("errors"@)->0[0].text(
            "message"@,
        )->0,
        json.items("errors"@) is None || json.items("errors"@)->0.len() == 0 ==> complaint(json)
            == "Cloudflare reddetti"@,
{
}

/// A name belongs to a zone exactly if it is the zone's, or ends in a dot and the zone's.
pub proof fn law_names_of_a_zone(name: Seq<char>, host: Seq<char>, sub: Seq<char>)
    ensures
        belongs(name, name),
        belongs(sub + seq!['.'] + name, name),
        belongs(host, name) && host != name ==> host.len() > name.len() && host[host.len() - name.len()
            - 1] == '.' && host.skip(host.len() - name.len()) == name,
{
    reveal_strlit(".");
    assert("."@ =~= seq!['.']);
    let end = "."@ + name;
    let long = sub + seq!['.'] + name;
    assert(long.skip(long.len() - end.len()) =~= end);
    if belongs(host, name) && host != name {
        let tail = host.skip(host.len() - end.len());
        assert(tail[0] == '.');
        assert(host.skip(host.len() - name.len()) =~= tail.skip(1));
        assert(tail.skip(1) =~= name);
    }
}

/// The zone that is picked is one of the list, with its own identifier. Those before it that the
/// name belongs to have no longer names, and those after it have shorter ones.
pub proof fn law_which_zone_is_picked(zones: Seq<JsonV>, host: Seq<char>)
    ensures
        best_zone(zones, host) is Some ==> exists|i: int|
            #![trigger zones[i]]
            0 <= i < zones.len() && zones[i].text("name"@) == Some(best_zone(zones, host)->0.name)
                && zones[i].text("id"@) == Some(best_zone(zones, host)->0.id) && belongs(
                host,
                best_zone(zones, host)->0.name,
            ) && (forall|j: int|
                #![trigger zones[j]]
                0 <= j < zones.len() && zones[j].text("name"@) is Some && zones[j].text("id"@) is Some
                    && belongs(host, zones[j].text("name"@)->0) ==> (if j <= i {
                    encode_utf8(zones[j].text("name"@)->0).len() <= encode_utf8(
                        best_zone(zones, host)->0.name,
                    ).len()
                } else {
                    encode_utf8(zones[j].text("name"@)->0).len() < encode_utf8(
                        best_zone(zones, host)->0.name,
                    ).len()
                })),
        best_zone(zones, host) is None ==> forall|j: int|
            #![trigger zones[j]]
            0 <= j < zones.len() ==> !(zones[j].text("name"@) is Some && zones[j].text("id"@) is Some
                && belongs(host, zones[j].text("name"@)->0)),
    decreases zones.len(), 1int,
{
    if zones.len() > 0 {
        let init = zones.drop_last();
        let n = init.len() as int;
        law_which_zone_is_picked(init, host);
        assert(zones[n] == zones.last());
        assert forall|j: int| 0 <= j < n implies #[trigger] zones[j] == init[j] by {}
        let before = best_zone(init, host);
        match zone_for(zones.last(), host) {
            Some(z) => {
                if before is None || encode_utf8(z.name).len() >= encode_utf8(before->0.name).len() {
                    assert(best_zone(zones, host) == Some(z));
                    if before is Some {
                        let i = choose|i: int|
                            #![trigger init[i]]
                            0 <= i < init.len() && init[i].text("name"@) == Some(before->0.name)
                                && init[i].text("id"@) == Some(before->0.id) && belongs(
                                host,
                                before->0.name,
                            ) && (forall|j: int|
                                #![trigger init[j]]
                                0 <= j < init.len() && init[j].text("name"@) is Some && init[j].text(
                                    "id"@,
                                ) is Some && belongs(host, init[j].text("name"@)->0) ==> (if j <= i {
                                    encode_utf8(init[j].text("name"@)->0).len() <= encode_utf8(
                                        before->0.name,
                                    ).len()
                                } else {
                                    encode_utf8(init[j].text("name"@)->0).len() < encode_utf8(
                                        before->0.name,
                                    ).len()
                                }));
                        assert forall|j: int|
                            #![trigger zones[j]]
                            0 <= j < n && zones[j].text("name"@) is Some && zones[j].text("id"@) is Some
                                && belongs(host, zones[j].text("name"@)->0) implies encode_utf8(
                            zones[j].text("name"@)->0,
                        ).len() <= encode_utf8(z.name).len() by {
                            assert(init[j] == zones[j]);
                        }
                    }
                    assert(zones[n].text("name"@) == Some(z.name));
                } else {
                    lemma_keep_zone(zones, host);
                }
            },
            None => {
                if before is Some {
                    lemma_keep_zone(zones, host);
                }
            },
        }
    }
}

/// Where the last zone is not picked, the one that was picked before stays.
proof fn lemma_keep_zone(zones: Seq<JsonV>, host: Seq<char>)
    requires
        zones.len() > 0,
        best_zone(zones.drop_last(), host) is Some,
        best_zone(zones, host) == best_zone(zones.drop_last(), host),
        match zone_for(zones.last(), host) {
            Some(z) => encode_utf8(z.name).len() < encode_utf8(
                best_zone(zones.drop_last(), host)->0.name,
            ).len(),
            None => true,
        },
    ensures
        exists|i: int|
            #![trigger zones[i]]
            0 <= i < zones.len() && zones[i].text("name"@) == Some(best_zone(zones, host)->0.name)
                && zones[i].text("id"@) == Some(best_zone(zones, host)->0.id) && belongs(
                host,
                best_zone(zones, host)->0.name,
            ) && (forall|j: int|
                #![trigger zones[j]]
                0 <= j < zones.len() && zones[j].text("name"@) is Some && zones[j].text("id"@) is Some
                    && belongs(host, zones[j].text("name"@)->0) ==> (if j <= i {
                    encode_utf8(zones[j].text("name"@)->0).len() <= encode_utf8(
                        best_zone(zones, host)->0.name,
                    ).len()
                } else {
                    encode_utf8(zones[j].text("name"@)->0).len() < encode_utf8(
                        best_zone(zones, host)->0.name,
                    ).len()
                })),
    decreases zones.len(), 0int,
{
    let init = zones.drop_last();
    let n = init.len() as int;
    law_which_zone_is_picked(init, host);
    let b = best_zone(init, host)->0;
    let i = choose|i: int|
        #![trigger init[i]]
        0 <= i < init.len() && init[i].text("name"@) == Some(b.name) && init[i].text("id"@) == Some(
            b.id,
        ) && belongs(host, b.name) && (forall|j: int|
            #![trigger init[j]]
            0 <= j < init.len() && init[j].text("name"@) is Some && init[j].text("id"@) is Some
                && belongs(host, init[j].text("name"@)->0) ==> (if j <= i {
                encode_utf8(init[j].text("name"@)->0).len() <= encode_utf8(b.name).len()
            } else {
                encode_utf8(init[j].text("name"@)->0).len() < encode_utf8(b.name).len()
            }));
    assert(zones[i] == init[i]);
    assert forall|j: int|
        #![trigger zones[j]]
        0 <= j < zones.len() && zones[j].text("name"@) is Some && zones[j].text("id"@) is Some
            && belongs(host, zones[j].text("name"@)->0) implies (if j <= i {
        encode_utf8(zones[j].text("name"@)->0).len() <= encode_utf8(b.name).len()
    } else {
        encode_utf8(zones[j].text("name"@)->0).len() < encode_utf8(b.name).len()
    }) by {
        if j < n {
            assert(init[j] == zones[j]);
        } else {
            assert(zones[j] == zones.last());
        }
    }
}

/// The record of an address says its kind, the name, the address, that it holds for two minutes, and
/// that nothing stands between.
pub proof fn law_record_of_an_address(host: Seq<char>, ip: Seq<char>)
    ensures
        a_record(host, ip).get("type"@) == Some(JsonV::Str(seq!['A'])),
        a_record(host, ip).get("name"@) == Some(JsonV::Str(host)),
        a_record(host, ip).get("content"@) == Some(JsonV::Str(ip)),
        a_record(host, ip).number("ttl"@) == Some(120u64),
        a_record(host, ip).get("proxied"@) == Some(JsonV::Bool(false)),
{
    reveal_strlit("type");
    reveal_strlit("name");
    reveal_strlit("content");
    reveal_strlit("ttl");
    reveal_strlit("proxied");
    reveal_strlit("A");
    assert("A"@ =~= seq!['A']);
    assert("type"@.len() == 4 && "name"@.len() == 4 && "content"@.len() == 7 && "ttl"@.len() == 3
        && "proxied"@.len() == 7);
    assert("type"@[0] == 't' && "name"@[0] == 'n' && "content"@[0] == 'c' && "proxied"@[0] == 'p');
    let keys = seq!["type"@, "name"@, "content"@, "ttl"@, "proxied"@];
    let v0 = JsonV::Null;
    let v1 = v0.with("type"@, JsonV::Str("A"@));
    let v2 = v1.with("name"@, JsonV::Str(host));
    let v3 = v2.with("content"@, JsonV::Str(ip));
    let v4 = v3.with("ttl"@, json_number(120));
    assert forall|k: int| 0 <= k < 5 implies {
        let key = #[trigger] keys[k];
        &&& v1.get(key) == (if key == "type"@ { Some(JsonV::Str("A"@)) } else { None })
        &&& v2.get(key) == (if key == "name"@ { Some(JsonV::Str(host)) } else { v1.get(key) })
        &&& v3.get(key) == (if key == "content"@ { Some(JsonV::Str(ip)) } else { v2.get(key) })
        &&& v4.get(key) == (if key == "ttl"@ { Some(json_number(120)) } else { v3.get(key) })
        &&& a_record(host, ip).get(key) == (if key == "proxied"@ {
            Some(JsonV::Bool(false))
        } else {
            v4.get(key)
        })
    } by {
        let key = keys[k];
        crate::json::law_set_field(v0, "type"@, JsonV::Str("A"@), key);
        crate::json::law_set_field(v1, "name"@, JsonV::Str(host), key);
        crate::json::law_set_field(v2, "content"@, JsonV::Str(ip), key);
        crate::json::law_set_field(v3, "ttl"@, json_number(120), key);
        crate::json::law_set_field(v4, "proxied"@, JsonV::Bool(false), key);
    }
    assert(keys[0] == "type"@ && keys[1] == "name"@ && keys[2] == "content"@ && keys[3] == "ttl"@
        && keys[4] == "proxied"@);
}

/// The record of the service says its kind and its name, and in its data the port of the server and
/// the name that has the address.
pub proof fn law_record_of_the_service(host: Seq<char>, port: u16)
    ensures
        ({
            let r = srv_record(host, port);
            let data = r.get("data"@);
            &&& r.get("type"@) == Some(JsonV::Str(seq!['S', 'R', 'V']))
            &&& r.get("name"@) == Some(JsonV::Str("_minecraft._tcp."@ + host))
            &&& r.number("ttl"@) == Some(120u64)
            &&& data is Some
            &&& data->0.number("port"@) == Some(port as u64)
            &&& data->0.get("target"@) == Some(JsonV::Str(host))
            &&& data->0.number("priority"@) == Some(0u64)
            &&& data->0.number("weight"@) == Some(5u64)
        }),
{
    reveal_strlit("type");
    reveal_strlit("name");
    reveal_strlit("ttl");
    reveal_strlit("data");
    reveal_strlit("SRV");
    reveal_strlit("priority");
    reveal_strlit("weight");
    reveal_strlit("port");
    reveal_strlit("target");
    assert("SRV"@ =~= seq!['S', 'R', 'V']);
    assert("type"@.len() == 4 && "name"@.len() == 4 && "ttl"@.len() == 3 && "data"@.len() == 4);
    assert("type"@[0] == 't' && "name"@[0] == 'n' && "data"@[0] == 'd');
    assert("priority"@.len() == 8 && "weight"@.len() == 6 && "port"@.len() == 4 && "target"@.len()
        == 6);
    assert("weight"@[0] == 'w' && "target"@[0] == 't');
    let d0 = JsonV::Null;
    let d1 = d0.with("priority"@, json_number(0));
    let d2 = d1.with("weight"@, json_number(5));
    let d3 = d2.with("port"@, json_number(port as nat));
    let data = d3.with("target"@, JsonV::Str(host));
    let inner = seq!["priority"@, "weight"@, "port"@, "target"@];
    assert forall|k: int| 0 <= k < 4 implies {
        let key = #[trigger] inner[k];
        &&& d1.get(key) == (if key == "priority"@ { Some(json_number(0)) } else { None })
        &&& d2.get(key) == (if key == "weight"@ { Some(json_number(5)) } else { d1.get(key) })
        &&& d3.get(key) == (if key == "port"@ { Some(json_number(port as nat)) } else { d2.get(key) })
        &&& data.get(key) == (if key == "target"@ { Some(JsonV::Str(host)) } else { d3.get(key) })
    } by {
        let key = inner[k];
        crate::json::law_set_field(d0, "priority"@, json_number(0), key);
        crate::json::law_set_field(d1, "weight"@, json_number(5), key);
        crate::json::law_set_field(d2, "port"@, json_number(port as nat), key);
        crate::json::law_set_field(d3, "target"@, JsonV::Str(host), key);
    }
    assert(inner[0] == "priority"@ && inner[1] == "weight"@ && inner[2] == "port"@ && inner[3]
        == "target"@);
    let v0 = JsonV::Null;
    let v1 = v0.with("type"@, JsonV::Str("SRV"@));
    let v2 = v1.with("name"@, JsonV::Str("_minecraft._tcp."@ + host));
    let v3 = v2.with("ttl"@, json_number(120));
    let keys = seq!["type"@, "name"@, "ttl"@, "data"@];
    assert forall|k: int| 0 <= k < 4 implies {
        let key = #[trigger] keys[k];
        &&& v1.get(key) == (if key == "type"@ { Some(JsonV::Str("SRV"@)) } else { None })
        &&& v2.get(key) == (if key == "name"@ {
            Some(JsonV::Str("_minecraft._tcp."@ + host))
        } else {
            v1.get(key)
        })
        &&& v3.get(key) == (if key == "ttl"@ { Some(json_number(120)) } else { v2.get(key) })
        &&& srv_record(host, port).get(key) == (if key == "data"@ { Some(data) } else { v3.get(key) })
    } by {
        let key = keys[k];
        crate::json::law_set_field(v0, "type"@, JsonV::Str("SRV"@), key);
        crate::json::law_set_field(v1, "name"@, JsonV::Str("_minecraft._tcp."@ + host), key);
        crate::json::law_set_field(v2, "ttl"@, json_number(120), key);
        crate::json::law_set_field(v3, "data"@, data, key);
    }
    assert(keys[0] == "type"@ && keys[1] == "name"@ && keys[2] == "ttl"@ && keys[3] == "data"@);
}

/// The record that is replaced is the first that was found.
pub proof fn law_record_that_is_there(json: JsonV)
    ensures
        json.items("result"@) is Some && json.items("result"@)->0.len() > 0 ==> record_found(json)
            == json.items("result"@)->0[0].text("id"@),
        json.items("result"@) is None || json.items("result"@)->0.len() == 0 ==> record_found(json) is None,
{
}

/// A number is its own value, and its text is its decimal form.
pub proof fn law_numbers_in_records(n: u16)
    ensures
        json_number(n as nat).as_u64() == Some(n as u64),
        json_number(n as nat).as_i64() == Some(n as i64),
        json_number(n as nat) == (JsonV::Number {
            text: decimal(n as nat),
            signed: Some(n as i64),
            unsigned: Some(n as u64),
        }),
{
}

} // verus!
