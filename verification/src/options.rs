//! The settings of a server that the panel shows.
use vstd::prelude::*;

use crate::numbers::{
    law_signed_decimal_read_back, parse_signed, read_signed, signed_decimal, signed_decimal_of,
};
use crate::properties::Properties;
use crate::text::{chars_of, same};

verus! {

/// The settings that the panel shows.
pub struct ServerOptions {
    pub online_mode: bool,
    pub pvp: bool,
    pub allow_flight: bool,
    pub difficulty: String,
    pub gamemode: String,
    pub white_list: bool,
    pub max_players: i32,
    pub spawn_protection: i32,
    pub resource_pack: String,
    pub resource_pack_prompt: String,
    pub resource_pack_sha1: String,
    pub force_gamemode: bool,
    pub require_resource_pack: bool,
}

/// What a flag is written as.
pub open spec fn flag_text(b: bool) -> Seq<char> {
    if b {
        "true"@
    } else {
        "false"@
    }
}

/// The flag `key`, or `current` where it is not set.
pub open spec fn flag(m: Map<Seq<char>, Seq<char>>, key: Seq<char>, current: bool) -> bool {
    if m.contains_key(key) {
        m[key] == "true"@
    } else {
        current
    }
}

/// The text of `key`, or `current` where it is not set.
pub open spec fn wording(m: Map<Seq<char>, Seq<char>>, key: Seq<char>, current: Seq<char>) -> Seq<
    char,
> {
    if m.contains_key(key) {
        m[key]
    } else {
        current
    }
}

/// The number `key`, or `current` where it is not set or no number.
pub open spec fn amount(m: Map<Seq<char>, Seq<char>>, key: Seq<char>, current: int) -> int {
    if m.contains_key(key) {
        match parse_signed(m[key]) {
            Some(n) => n,
            None => current,
        }
    } else {
        current
    }
}

fn read_flag(p: &Properties, key: &str, current: bool) -> (r: bool)
    requires
        p.wf(),
    ensures
        r == flag(p@, key@, current),
{
    match p.get(key) {
        Some(v) => same(v.as_str(), "true"),
        None => current,
    }
}

fn read_wording(p: &Properties, key: &str, current: &String) -> (r: String)
    requires
        p.wf(),
    ensures
        r@ == wording(p@, key@, current@),
{
    match p.get(key) {
        Some(v) => v.clone(),
        None => current.clone(),
    }
}

fn read_amount(p: &Properties, key: &str, current: i32) -> (r: i32)
    requires
        p.wf(),
    ensures
        r == amount(p@, key@, current as int),
{
    match p.get(key) {
        Some(v) => match read_signed(&chars_of(v.as_str())) {
            Some(n) => n,
            None => current,
        },
        None => current,
    }
}

/// The settings in `p`; what it does not set stays as it is in `current`.
pub fn load_options(p: &Properties, current: &ServerOptions) -> (r: ServerOptions)
    requires
        p.wf(),
    ensures
        r.online_mode == flag(p@, "online-mode"@, current.online_mode),
        r.pvp == flag(p@, "pvp"@, current.pvp),
        r.allow_flight == flag(p@, "allow-flight"@, current.allow_flight),
        r.difficulty@ == wording(p@, "difficulty"@, current.difficulty@),
        r.gamemode@ == wording(p@, "gamemode"@, current.gamemode@),
        r.white_list == flag(p@, "white-list"@, current.white_list),
        r.max_players == amount(p@, "max-players"@, current.max_players as int),
        r.spawn_protection == amount(p@, "spawn-protection"@, current.spawn_protection as int),
        r.resource_pack@ == wording(p@, "resource-pack"@, current.resource_pack@),
        r.resource_pack_prompt@ == wording(
            p@,
            "resource-pack-prompt"@,
            current.resource_pack_prompt@,
        ),
        r.resource_pack_sha1@ == wording(p@, "resource-pack-sha1"@, current.resource_pack_sha1@),
        r.force_gamemode == flag(p@, "force-gamemode"@, current.force_gamemode),
        r.require_resource_pack == flag(
            p@,
            "require-resource-pack"@,
            current.require_resource_pack,
        ),
{
    ServerOptions {
        online_mode: read_flag(p, "online-mode", current.online_mode),
        pvp: read_flag(p, "pvp", current.pvp),
        allow_flight: read_flag(p, "allow-flight", current.allow_flight),
        difficulty: read_wording(p, "difficulty", &current.difficulty),
        gamemode: read_wording(p, "gamemode", &current.gamemode),
        white_list: read_flag(p, "white-list", current.white_list),
        max_players: read_amount(p, "max-players", current.max_players),
        spawn_protection: read_amount(p, "spawn-protection", current.spawn_protection),
        resource_pack: read_wording(p, "resource-pack", &current.resource_pack),
        resource_pack_prompt: read_wording(p, "resource-pack-prompt", &current.resource_pack_prompt),
        resource_pack_sha1: read_wording(p, "resource-pack-sha1", &current.resource_pack_sha1),
        force_gamemode: read_flag(p, "force-gamemode", current.force_gamemode),
        require_resource_pack: read_flag(p, "require-resource-pack", current.require_resource_pack),
    }
}

/// What is written for the settings `o`.
pub open spec fn options_map(o: ServerOptions) -> Map<Seq<char>, Seq<char>> {
    Map::empty().insert("online-mode"@, flag_text(o.online_mode)).insert("pvp"@, flag_text(o.pvp))
        .insert("allow-flight"@, flag_text(o.allow_flight)).insert("difficulty"@, o.difficulty@)
        .insert("gamemode"@, o.gamemode@).insert("white-list"@, flag_text(o.white_list)).insert(
        "max-players"@,
        signed_decimal(o.max_players as int),
    ).insert("spawn-protection"@, signed_decimal(o.spawn_protection as int)).insert(
        "resource-pack"@,
        o.resource_pack@,
    ).insert("resource-pack-prompt"@, o.resource_pack_prompt@).insert(
        "resource-pack-sha1"@,
        o.resource_pack_sha1@,
    ).insert("force-gamemode"@, flag_text(o.force_gamemode)).insert(
        "require-resource-pack"@,
        flag_text(o.require_resource_pack),
    )
}

fn flag_word(b: bool) -> (r: &'static str)
    ensures
        r@ == flag_text(b),
{
    if b {
        "true"
    } else {
        "false"
    }
}

/// The settings `o`, as they are written.
pub fn options_properties(o: &ServerOptions) -> (r: Properties)
    ensures
        r.wf(),
        r@ == options_map(*o),
{
    let mut p = Properties::new();
    p.set("online-mode", flag_word(o.online_mode));
    p.set("pvp", flag_word(o.pvp));
    p.set("allow-flight", flag_word(o.allow_flight));
    p.set("difficulty", o.difficulty.as_str());
    p.set("gamemode", o.gamemode.as_str());
    p.set("white-list", flag_word(o.white_list));
    p.set("max-players", signed_decimal_of(o.max_players).as_str());
    p.set("spawn-protection", signed_decimal_of(o.spawn_protection).as_str());
    p.set("resource-pack", o.resource_pack.as_str());
    p.set("resource-pack-prompt", o.resource_pack_prompt.as_str());
    p.set("resource-pack-sha1", o.resource_pack_sha1.as_str());
    p.set("force-gamemode", flag_word(o.force_gamemode));
    p.set("require-resource-pack", flag_word(o.require_resource_pack));
    p
}

/// The settings that were set in a file, whatever else it holds, are the settings that are
/// loaded from it.
pub proof fn law_options_load_what_was_saved(o: ServerOptions, file: Map<Seq<char>, Seq<char>>)
    ensures
        ({
            let m = file.union_prefer_right(options_map(o));
            &&& forall|d: bool| #[trigger] flag(m, "online-mode"@, d) == o.online_mode
            &&& forall|d: bool| #[trigger] flag(m, "pvp"@, d) == o.pvp
            &&& forall|d: bool| #[trigger] flag(m, "allow-flight"@, d) == o.allow_flight
            &&& forall|d: Seq<char>| #[trigger] wording(m, "difficulty"@, d) == o.difficulty@
            &&& forall|d: Seq<char>| #[trigger] wording(m, "gamemode"@, d) == o.gamemode@
            &&& forall|d: bool| #[trigger] flag(m, "white-list"@, d) == o.white_list
            &&& forall|d: int| #[trigger] amount(m, "max-players"@, d) == o.max_players
            &&& forall|d: int| #[trigger] amount(m, "spawn-protection"@, d) == o.spawn_protection
            &&& forall|d: Seq<char>| #[trigger] wording(m, "resource-pack"@, d) == o.resource_pack@
            &&& forall|d: Seq<char>| #[trigger]
                wording(m, "resource-pack-prompt"@, d) == o.resource_pack_prompt@
            &&& forall|d: Seq<char>| #[trigger]
                wording(m, "resource-pack-sha1"@, d) == o.resource_pack_sha1@
            &&& forall|d: bool| #[trigger] flag(m, "force-gamemode"@, d) == o.force_gamemode
            &&& forall|d: bool| #[trigger]
                flag(m, "require-resource-pack"@, d) == o.require_resource_pack
        }),
{
    reveal_strlit("online-mode");
    reveal_strlit("pvp");
    reveal_strlit("allow-flight");
    reveal_strlit("difficulty");
    reveal_strlit("gamemode");
    reveal_strlit("white-list");
    reveal_strlit("max-players");
    reveal_strlit("spawn-protection");
    reveal_strlit("resource-pack");
    reveal_strlit("resource-pack-prompt");
    reveal_strlit("resource-pack-sha1");
    reveal_strlit("force-gamemode");
    reveal_strlit("require-resource-pack");
    reveal_strlit("true");
    reveal_strlit("false");
    assert("online-mode"@.len() == 11);
    assert("pvp"@.len() == 3);
    assert("allow-flight"@.len() == 12);
    assert("difficulty"@.len() == 10);
    assert("gamemode"@.len() == 8);
    assert("white-list"@.len() == 10);
    assert("max-players"@.len() == 11);
    assert("spawn-protection"@.len() == 16);
    assert("resource-pack"@.len() == 13);
    assert("resource-pack-prompt"@.len() == 20);
    assert("resource-pack-sha1"@.len() == 18);
    assert("force-gamemode"@.len() == 14);
    assert("require-resource-pack"@.len() == 21);
    assert("true"@.len() != "false"@.len());
    assert("online-mode"@[0] != "max-players"@[0]);
    assert("difficulty"@[0] != "white-list"@[0]);
    let m = options_map(o);
    assert(m.contains_key("online-mode"@) && m["online-mode"@] == flag_text(o.online_mode));
    assert(m.contains_key("pvp"@) && m["pvp"@] == flag_text(o.pvp));
    assert(m.contains_key("allow-flight"@) && m["allow-flight"@] == flag_text(o.allow_flight));
    assert(m.contains_key("difficulty"@) && m["difficulty"@] == o.difficulty@);
    assert(m.contains_key("gamemode"@) && m["gamemode"@] == o.gamemode@);
    assert(m.contains_key("white-list"@) && m["white-list"@] == flag_text(o.white_list));
    assert(m.contains_key("max-players"@) && m["max-players"@] == signed_decimal(o.max_players as int));
    assert(m.contains_key("spawn-protection"@) && m["spawn-protection"@] == signed_decimal(o.spawn_protection as int));
    assert(m.contains_key("resource-pack"@) && m["resource-pack"@] == o.resource_pack@);
    assert(m.contains_key("resource-pack-prompt"@) && m["resource-pack-prompt"@] == o.resource_pack_prompt@);
    assert(m.contains_key("resource-pack-sha1"@) && m["resource-pack-sha1"@] == o.resource_pack_sha1@);
    assert(m.contains_key("force-gamemode"@) && m["force-gamemode"@] == flag_text(o.force_gamemode));
    assert(m.contains_key("require-resource-pack"@) && m["require-resource-pack"@] == flag_text(o.require_resource_pack));
    law_signed_decimal_read_back(o.max_players);
    law_signed_decimal_read_back(o.spawn_protection);
}

/// A flag is on exactly if its value is `true`, and it is written as `true` or `false`; a text and a
/// number are what their values say. What is not set, or is no number, stays as it is.
pub proof fn law_reading_options(
    m: Map<Seq<char>, Seq<char>>,
    key: Seq<char>,
    on: bool,
    text: Seq<char>,
    n: int,
)
    ensures
        flag_text(true) == seq!['t', 'r', 'u', 'e'],
        flag_text(false) == seq!['f', 'a', 'l', 's', 'e'],
        m.contains_key(key) ==> (flag(m, key, on) <==> m[key] == seq!['t', 'r', 'u', 'e']),
        !m.contains_key(key) ==> flag(m, key, on) == on,
        m.contains_key(key) ==> wording(m, key, text) == m[key],
        !m.contains_key(key) ==> wording(m, key, text) == text,
        m.contains_key(key) && parse_signed(m[key]) is Some ==> amount(m, key, n) == parse_signed(
            m[key],
        )->0,
        !m.contains_key(key) || parse_signed(m[key]) is None ==> amount(m, key, n) == n,
{
    reveal_strlit("true");
    reveal_strlit("false");
    assert("true"@ =~= seq!['t', 'r', 'u', 'e']);
    assert("false"@ =~= seq!['f', 'a', 'l', 's', 'e']);
}

/// Saving the settings that the panel shows sets their thirteen keys, and no other.
pub proof fn law_keys_of_options(o: ServerOptions, key: Seq<char>)
    ensures
        options_map(o).contains_key(key) <==> key == "online-mode"@ || key == "pvp"@ || key
            == "allow-flight"@ || key == "difficulty"@ || key == "gamemode"@ || key == "white-list"@
            || key == "max-players"@ || key == "spawn-protection"@ || key == "resource-pack"@ || key
            == "resource-pack-prompt"@ || key == "resource-pack-sha1"@ || key == "force-gamemode"@
            || key == "require-resource-pack"@,
{
}

} // verus!
