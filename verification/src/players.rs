//! The players of a server: who is known, who is an operator, who may join.
use vstd::prelude::*;

use crate::json::{json_view, json_views, lemma_json_views, Json, JsonV};
use crate::json::law_set_field;
use crate::tables::{as_map, distinct, lemma_as_map, lemma_as_map_insert, lemma_as_map_update};
use crate::text::{
    before, cat2, chars_of, is_empty, lemma_precedes_irreflexive, lemma_precedes_total,
    lemma_precedes_transitive, lower, pieces, precedes, same, same_chars, same_ignoring_case,
    trim, trim_text,
};
use crate::unicode::{lowercase, lowers_as_ascii, to_lowercase};

verus! {

/// A player in one of the server's lists.
pub struct McNamed {
    pub name: String,
    pub uuid: String,
}

/// A player as the panel shows one.
pub struct PlayerItem {
    pub name: String,
    pub uuid: String,
    pub is_op: bool,
    pub is_whitelisted: bool,
}

/// What is shown of a player.
pub struct PlayerV {
    pub name: Seq<char>,
    pub uuid: Seq<char>,
    pub is_op: bool,
    pub is_whitelisted: bool,
}

impl View for PlayerItem {
    type V = PlayerV;

    open spec fn view(&self) -> PlayerV {
        PlayerV {
            name: self.name@,
            uuid: self.uuid@,
            is_op: self.is_op,
            is_whitelisted: self.is_whitelisted,
        }
    }
}

/// Which list names a player.
#[derive(Clone, Copy, Debug, PartialEq, Eq, Structural)]
pub enum Role {
    Known,
    Op,
    Whitelisted,
}

/// The player `p` once a list names it. A list of roles gives the role, and the identifier
/// where none was known.
pub open spec fn with_role(p: PlayerV, uuid: Seq<char>, role: Role) -> PlayerV {
    let id = if p.uuid.len() == 0 {
        uuid
    } else {
        p.uuid
    };
    match role {
        Role::Known => p,
        Role::Op => PlayerV {
            name: p.name,
            uuid: id,
            is_op: true,
            is_whitelisted: p.is_whitelisted,
        },
        Role::Whitelisted => PlayerV {
            name: p.name,
            uuid: id,
            is_op: p.is_op,
            is_whitelisted: true,
        },
    }
}

/// The players `m`, by their names in lower case, once a list names one.
pub open spec fn noted(
    m: Map<Seq<char>, PlayerV>,
    name: Seq<char>,
    uuid: Seq<char>,
    role: Role,
) -> Map<Seq<char>, PlayerV> {
    if name.len() == 0 {
        m
    } else {
        let key = lowercase(name);
        let p = if m.contains_key(key) {
            m[key]
        } else {
            PlayerV { name, uuid, is_op: false, is_whitelisted: false }
        };
        m.insert(key, with_role(p, uuid, role))
    }
}

/// The players `m` once a list names each of `list`.
pub open spec fn all_noted(
    m: Map<Seq<char>, PlayerV>,
    list: Seq<(Seq<char>, Seq<char>)>,
    role: Role,
) -> Map<Seq<char>, PlayerV>
    decreases list.len(),
{
    if list.len() == 0 {
        m
    } else {
        noted(all_noted(m, list.drop_last(), role), list.last().0, list.last().1, role)
    }
}

/// The names and identifiers in a list.
pub open spec fn named(list: Seq<McNamed>) -> Seq<(Seq<char>, Seq<char>)> {
    Seq::new(list.len(), |i: int| (list[i].name@, list[i].uuid@))
}

/// The names and identifiers in a JSON list.
pub open spec fn json_named(list: Seq<JsonV>) -> Seq<(Seq<char>, Seq<char>)> {
    Seq::new(
        list.len(),
        |i: int| (list[i].text_or_empty("name"@), list[i].text_or_empty("uuid"@)),
    )
}

/// Whether the names in a list that are ASCII have their usual lower case.
pub open spec fn names_lower_as_ascii(list: Seq<(Seq<char>, Seq<char>)>) -> bool {
    forall|i: int| #![trigger list[i]]
        0 <= i < list.len() && list[i].0.len() > 0 ==> lowers_as_ascii(list[i].0)
}

/// One name more has its usual lower case.
proof fn lemma_names_lower(list: Seq<(Seq<char>, Seq<char>)>, i: int)
    requires
        0 <= i < list.len(),
        names_lower_as_ascii(list.take(i)),
        list[i].0.len() > 0 ==> lowers_as_ascii(list[i].0),
    ensures
        names_lower_as_ascii(list.take(i + 1)),
{
    assert forall|j: int| #![trigger list.take(i + 1)[j]]
        0 <= j < i + 1 && list.take(i + 1)[j].0.len() > 0 implies lowers_as_ascii(
        list.take(i + 1)[j].0,
    ) by {
        if j < i {
            assert(list.take(i)[j] == list[j]);
        }
    }
}

/// The players of a server, by their names in lower case.
pub open spec fn players_in(
    cache: Seq<(Seq<char>, Seq<char>)>,
    ops: Seq<(Seq<char>, Seq<char>)>,
    white: Seq<(Seq<char>, Seq<char>)>,
) -> Map<Seq<char>, PlayerV> {
    all_noted(
        all_noted(all_noted(Map::empty(), cache, Role::Known), ops, Role::Op),
        white,
        Role::Whitelisted,
    )
}

/// What is shown of each of `items`.
pub open spec fn shown(items: Seq<PlayerItem>) -> Seq<PlayerV> {
    Seq::new(items.len(), |i: int| items[i]@)
}

/// The names of `items` in lower case.
pub open spec fn keys_of(items: Seq<PlayerV>) -> Seq<Seq<char>> {
    Seq::new(items.len(), |i: int| lowercase(items[i].name))
}

/// Whether each of `keys` stands before those after it.
pub open spec fn ascending(keys: Seq<Seq<char>>) -> bool {
    forall|i: int, j: int| 0 <= i < j < keys.len() ==> precedes(#[trigger] keys[i], #[trigger] keys[j])
}

/// Whether `items` are the players `m`, each once, in the order of their names in lower case.
pub open spec fn lists(m: Map<Seq<char>, PlayerV>, items: Seq<PlayerV>) -> bool {
    &&& ascending(keys_of(items))
    &&& as_map(keys_of(items), items) == m
}

/// Players in the order of their names in lower case.
struct Roster {
    keys: Vec<Vec<char>>,
    items: Vec<PlayerItem>,
}

proof fn lemma_ascending_distinct(keys: Seq<Seq<char>>)
    requires
        ascending(keys),
    ensures
        distinct(keys),
{
    assert forall|i: int, j: int| 0 <= i < j < keys.len() implies keys[i] != keys[j] by {
        assert(precedes(keys[i], keys[j]));
        lemma_precedes_irreflexive(keys[i]);
    }
}

impl Roster {
    spec fn wf(&self) -> bool {
        &&& pieces(self.keys@) == keys_of(shown(self.items@))
        &&& ascending(pieces(self.keys@))
    }

    spec fn map(&self) -> Map<Seq<char>, PlayerV> {
        as_map(pieces(self.keys@), shown(self.items@))
    }

    fn new() -> (r: Roster)
        ensures
            r.wf(),
            r.map() == Map::<Seq<char>, PlayerV>::empty(),
    {
        let r = Roster { keys: Vec::new(), items: Vec::new() };
        assert(pieces(r.keys@) == keys_of(shown(r.items@)));
        r
    }

    /// The place of the first key that does not stand before `key`.
    fn place(&self, key: &Vec<char>) -> (r: usize)
        requires
            self.wf(),
        ensures
            r <= self.keys@.len(),
            forall|j: int| 0 <= j < r ==> precedes(#[trigger] pieces(self.keys@)[j], key@),
            r < self.keys@.len() ==> !precedes(pieces(self.keys@)[r as int], key@),
    {
        let n: usize = self.keys.len();
        let mut i: usize = 0;
        while i < n && before(&self.keys[i], key)
            invariant
                i <= n,
                n == self.keys@.len(),
                forall|j: int| 0 <= j < i ==> precedes(#[trigger] pieces(self.keys@)[j], key@),
            decreases n - i,
        {
            assert(pieces(self.keys@)[i as int] == self.keys@[i as int]@);
            i = i + 1;
        }
        i
    }

    /// Notes that a list names a player.
    fn note(&mut self, name: &str, uuid: &str, role: Role)
        requires
            old(self).wf(),
        ensures
            final(self).wf(),
            final(self).map() == noted(old(self).map(), name@, uuid@, role),
            name@.len() > 0 ==> lowers_as_ascii(name@),
    {
        if is_empty(name) {
            return;
        }
        let key = chars_of(to_lowercase(name).as_str());
        let i: usize = self.place(&key);
        let n: usize = self.keys.len();
        let ghost ks = pieces(self.keys@);
        let ghost vs = shown(self.items@);
        assert(ks.len() == vs.len());
        proof {
            lemma_ascending_distinct(ks);
            lemma_as_map(ks, vs);
        }
        if i < n && same_chars(&self.keys[i], &key) {
            assert(ks[i as int] == key@);
            assert(ks.contains(key@));
            let old_item = self.items.remove(i);
            let ghost p = old_item@;
            assert(p == vs[i as int]);
            let item = changed(old_item, uuid, role);
            let ghost q = item@;
            assert(q == with_role(p, uuid@, role));
            self.items.insert(i, item);
            proof {
                assert(shown(self.items@) == vs.update(i as int, q));
                lemma_as_map_update(ks, vs, i as int, q);
                assert(keys_of(vs)[i as int] == lowercase(p.name));
                assert(keys_of(shown(self.items@)) == ks);
            }
        } else {
            proof {
                if i < n {
                    lemma_precedes_total(ks[i as int], key@);
                    assert(precedes(key@, ks[i as int]));
                }
                assert forall|j: int| i <= j < ks.len() implies precedes(
                    key@,
                    #[trigger] ks[j],
                ) by {
                    if j > i {
                        lemma_precedes_transitive(key@, ks[i as int], ks[j]);
                    }
                }
                if ks.contains(key@) {
                    let j = choose|j: int| 0 <= j < ks.len() && ks[j] == key@;
                    lemma_precedes_irreflexive(key@);
                    if j < i {
                        assert(precedes(ks[j], key@));
                    } else {
                        assert(precedes(key@, ks[j]));
                    }
                }
            }
            let fresh = PlayerItem {
                name: name.to_owned(),
                uuid: uuid.to_owned(),
                is_op: false,
                is_whitelisted: false,
            };
            let ghost f = fresh@;
            assert(f == PlayerV { name: name@, uuid: uuid@, is_op: false, is_whitelisted: false });
            let item = changed(fresh, uuid, role);
            let ghost q = item@;
            let ghost k = key@;
            self.keys.insert(i, key);
            self.items.insert(i, item);
            proof {
                let ks2 = ks.insert(i as int, k);
                let vs2 = vs.insert(i as int, q);
                assert(pieces(self.keys@) == ks2);
                assert(shown(self.items@) == vs2);
                lemma_as_map_insert(ks, vs, i as int, k, q);
                assert(keys_of(vs2) == ks2) by {
                    assert forall|j: int| 0 <= j < ks2.len() implies #[trigger] ks2[j] == lowercase(
                        vs2[j].name,
                    ) by {
                        if j < i {
                            assert(ks[j] == keys_of(vs)[j]);
                        } else if j > i {
                            assert(ks[j - 1] == keys_of(vs)[j - 1]);
                        }
                    }
                }
                assert forall|a: int, b: int| 0 <= a < b < ks2.len() implies precedes(
                    #[trigger] ks2[a],
                    #[trigger] ks2[b],
                ) by {
                    if a < i {
                        assert(ks2[a] == ks[a]);
                    } else if a > i {
                        assert(ks2[a] == ks[a - 1]);
                    }
                    if b < i {
                        assert(ks2[b] == ks[b]);
                    } else if b > i {
                        assert(ks2[b] == ks[b - 1]);
                    }
                }
            }
        }
    }
}

/// The player `p` once a list names it.
fn changed(p: PlayerItem, uuid: &str, role: Role) -> (r: PlayerItem)
    ensures
        r@ == with_role(p@, uuid@, role),
{
    let id = if is_empty(p.uuid.as_str()) {
        uuid.to_owned()
    } else {
        p.uuid.clone()
    };
    match role {
        Role::Known => p,
        Role::Op => PlayerItem {
            name: p.name,
            uuid: id,
            is_op: true,
            is_whitelisted: p.is_whitelisted,
        },
        Role::Whitelisted => PlayerItem {
            name: p.name,
            uuid: id,
            is_op: p.is_op,
            is_whitelisted: true,
        },
    }
}

/// Notes everyone that a JSON list names.
fn note_json(roster: &mut Roster, list: &Vec<Json>, role: Role)
    requires
        old(roster).wf(),
    ensures
        final(roster).wf(),
        final(roster).map() == all_noted(old(roster).map(), json_named(json_views(list@)), role),
        names_lower_as_ascii(json_named(json_views(list@))),
{
    let n: usize = list.len();
    let ghost m0 = roster.map();
    let ghost all = json_named(json_views(list@));
    proof {
        lemma_json_views(list@);
    }
    for i in 0..n
        invariant
            n == list@.len(),
            all.len() == n,
            forall|j: int|
                0 <= j < n ==> #[trigger] all[j] == (
                    list@[j]@.text_or_empty("name"@),
                    list@[j]@.text_or_empty("uuid"@),
                ),
            roster.wf(),
            roster.map() == all_noted(m0, all.take(i as int), role),
            names_lower_as_ascii(all.take(i as int)),
    {
        assert(all.take(i + 1).drop_last() == all.take(i as int));
        assert(all.take(i + 1).last() == all[i as int]);
        let name = list[i].text_or_empty("name");
        let uuid = list[i].text_or_empty("uuid");
        roster.note(name.as_str(), uuid.as_str(), role);
        proof {
            lemma_names_lower(all, i as int);
        }
    }
    assert(all.take(n as int) == all);
}

/// The players of a server: those of its cache, its operators and its whitelist, each once, in
/// the order of their names in lower case.
pub fn get_players_of(cache: &Vec<McNamed>, ops: &Vec<Json>, white: &Vec<Json>) -> (r: Vec<
    PlayerItem,
>)
    ensures
        lists(
            players_in(
                named(cache@),
                json_named(json_views(ops@)),
                json_named(json_views(white@)),
            ),
            shown(r@),
        ),
        names_lower_as_ascii(named(cache@)),
        names_lower_as_ascii(json_named(json_views(ops@))),
        names_lower_as_ascii(json_named(json_views(white@))),
{
    let mut roster = Roster::new();
    let n: usize = cache.len();
    let ghost all = named(cache@);
    for i in 0..n
        invariant
            n == cache@.len(),
            all == named(cache@),
            roster.wf(),
            roster.map() == all_noted(Map::empty(), all.take(i as int), Role::Known),
            names_lower_as_ascii(all.take(i as int)),
    {
        assert(all.take(i + 1).drop_last() == all.take(i as int));
        assert(all.take(i + 1).last() == all[i as int]);
        roster.note(cache[i].name.as_str(), cache[i].uuid.as_str(), Role::Known);
        proof {
            lemma_names_lower(all, i as int);
        }
    }
    assert(all.take(n as int) == all);
    note_json(&mut roster, ops, Role::Op);
    note_json(&mut roster, white, Role::Whitelisted);
    roster.items
}

/// What the lists say of a player once one named it is never taken back.
proof fn lemma_noted_keeps(
    m: Map<Seq<char>, PlayerV>,
    list: Seq<(Seq<char>, Seq<char>)>,
    role: Role,
    key: Seq<char>,
)
    requires
        m.contains_key(key),
    ensures
        all_noted(m, list, role).contains_key(key),
        m[key].is_op ==> all_noted(m, list, role)[key].is_op,
        m[key].is_whitelisted ==> all_noted(m, list, role)[key].is_whitelisted,
    decreases list.len(),
{
    if list.len() > 0 {
        lemma_noted_keeps(m, list.drop_last(), role, key);
    }
}

/// Everyone that a list names is noted with its role.
proof fn lemma_listed(
    m: Map<Seq<char>, PlayerV>,
    list: Seq<(Seq<char>, Seq<char>)>,
    role: Role,
    i: int,
)
    requires
        0 <= i < list.len(),
        list[i].0.len() > 0,
    ensures
        all_noted(m, list, role).contains_key(lowercase(list[i].0)),
        role == Role::Op ==> all_noted(m, list, role)[lowercase(list[i].0)].is_op,
        role == Role::Whitelisted ==> all_noted(
            m,
            list,
            role,
        )[lowercase(list[i].0)].is_whitelisted,
    decreases list.len(),
{
    let init = list.drop_last();
    if i < init.len() {
        lemma_listed(m, init, role, i);
        lemma_noted_keeps(
            all_noted(m, init, role),
            seq![list.last()],
            role,
            lowercase(list[i].0),
        );
        let one = seq![list.last()];
        assert(one.last() == list.last());
        assert(one.drop_last() == Seq::<(Seq<char>, Seq<char>)>::empty());
        let before = all_noted(m, init, role);
        assert(all_noted(before, one.drop_last(), role) == before);
        assert(all_noted(before, one, role) == all_noted(m, list, role));
    }
}

/// Every operator is listed as one, and everyone on the whitelist as being on it, whatever
/// the case of the letters in the lists.
pub proof fn law_roles_are_listed(
    cache: Seq<(Seq<char>, Seq<char>)>,
    ops: Seq<(Seq<char>, Seq<char>)>,
    white: Seq<(Seq<char>, Seq<char>)>,
)
    ensures
        forall|i: int|
            #![trigger ops[i]]
            0 <= i < ops.len() && ops[i].0.len() > 0 ==> players_in(
                cache,
                ops,
                white,
            ).contains_key(lowercase(ops[i].0)) && players_in(
                cache,
                ops,
                white,
            )[lowercase(ops[i].0)].is_op,
        forall|i: int|
            #![trigger white[i]]
            0 <= i < white.len() && white[i].0.len() > 0 ==> players_in(
                cache,
                ops,
                white,
            ).contains_key(lowercase(white[i].0)) && players_in(
                cache,
                ops,
                white,
            )[lowercase(white[i].0)].is_whitelisted,
{
    let m = all_noted(Map::empty(), cache, Role::Known);
    let o = all_noted(m, ops, Role::Op);
    assert forall|i: int|
        #![trigger ops[i]]
        0 <= i < ops.len() && ops[i].0.len() > 0 implies players_in(
        cache,
        ops,
        white,
    ).contains_key(lowercase(ops[i].0)) && players_in(
        cache,
        ops,
        white,
    )[lowercase(ops[i].0)].is_op by {
        lemma_listed(m, ops, Role::Op, i);
        lemma_noted_keeps(o, white, Role::Whitelisted, lowercase(ops[i].0));
    }
    assert forall|i: int|
        #![trigger white[i]]
        0 <= i < white.len() && white[i].0.len() > 0 implies players_in(
        cache,
        ops,
        white,
    ).contains_key(lowercase(white[i].0)) && players_in(
        cache,
        ops,
        white,
    )[lowercase(white[i].0)].is_whitelisted by {
        lemma_listed(o, white, Role::Whitelisted, i);
    }
}

// ---------------------------------------------------------------------------------------------
// Looking a player up
// ---------------------------------------------------------------------------------------------
/// The identifier that `list` gives for `name`, whatever the case of its letters.
pub open spec fn uuid_in(list: Seq<(Seq<char>, Seq<char>)>, name: Seq<char>) -> Option<Seq<char>>
    decreases list.len(),
{
    if list.len() == 0 {
        None
    } else if lower(list.first().0) == lower(name) && list.first().1.len() > 0 {
        Some(list.first().1)
    } else {
        uuid_in(list.drop_first(), name)
    }
}

/// The identifier that the first of `lists` that has one gives for `name`.
pub open spec fn uuid_among(
    lists: Seq<Seq<(Seq<char>, Seq<char>)>>,
    name: Seq<char>,
) -> Seq<char>
    decreases lists.len(),
{
    if lists.len() == 0 {
        Seq::empty()
    } else {
        match uuid_in(lists.first(), name) {
            Some(u) => u,
            None => uuid_among(lists.drop_first(), name),
        }
    }
}

/// The names and identifiers in each of `lists`.
pub open spec fn all_named(lists: Seq<Vec<McNamed>>) -> Seq<Seq<(Seq<char>, Seq<char>)>> {
    Seq::new(lists.len(), |i: int| named(lists[i]@))
}

fn uuid_from(list: &Vec<McNamed>, name: &str) -> (r: Option<String>)
    ensures
        match r {
            Some(u) => uuid_in(named(list@), name@) == Some(u@),
            None => uuid_in(named(list@), name@) is None,
        },
{
    let n: usize = list.len();
    let ghost all = named(list@);
    assert(all.skip(0) == all);
    for i in 0..n
        invariant
            n == list@.len(),
            all == named(list@),
            uuid_in(all, name@) == uuid_in(all.skip(i as int), name@),
    {
        assert(all.skip(i as int).first() == all[i as int]);
        assert(all.skip(i as int).drop_first() == all.skip(i + 1));
        if same_ignoring_case(list[i].name.as_str(), name) && !is_empty(list[i].uuid.as_str()) {
            return Some(list[i].uuid.clone());
        }
    }
    None
}

/// The identifier of the player `name`: that of the first of `lists` that names the player and
/// has one, or nothing.
pub fn find_player_uuid(lists: &Vec<Vec<McNamed>>, name: &str) -> (r: String)
    ensures
        r@ == uuid_among(all_named(lists@), name@),
{
    let n: usize = lists.len();
    let ghost all = all_named(lists@);
    assert(all.skip(0) == all);
    for i in 0..n
        invariant
            n == lists@.len(),
            all == all_named(lists@),
            uuid_among(all, name@) == uuid_among(all.skip(i as int), name@),
    {
        assert(all.skip(i as int).first() == all[i as int]);
        assert(all.skip(i as int).drop_first() == all.skip(i + 1));
        if let Some(u) = uuid_from(&lists[i], name) {
            return u;
        }
    }
    String::new()
}

// ---------------------------------------------------------------------------------------------
// Changing a list
// ---------------------------------------------------------------------------------------------
/// Whether the entry `v` names `name`, whatever the case of its letters.
pub open spec fn names(v: JsonV, name: Seq<char>) -> bool {
    lower(v.text_or_empty("name"@)) == lower(name)
}

/// The place of the first entry from `i` on that names `name`.
pub open spec fn first_named(list: Seq<JsonV>, name: Seq<char>, i: int) -> Option<int>
    decreases list.len() - i,
{
    if i < 0 || i >= list.len() {
        None
    } else if names(list[i], name) {
        Some(i)
    } else {
        first_named(list, name, i + 1)
    }
}

/// The number four, the highest level of operators.
pub open spec fn level_four() -> JsonV {
    JsonV::Number { text: "4"@, signed: Some(4i64), unsigned: Some(4u64) }
}

/// The entry `v` with the rights of an operator.
pub open spec fn with_rights(v: JsonV, as_op: bool) -> JsonV {
    if as_op {
        v.with("level"@, level_four()).with("bypassesPlayerLimit"@, JsonV::Bool(false))
    } else {
        v
    }
}

/// The entry `v`, brought up to date.
pub open spec fn updated(v: JsonV, name: Seq<char>, uuid: Seq<char>, as_op: bool) -> JsonV {
    let a = if uuid.len() > 0 {
        v.with("uuid"@, JsonV::Str(uuid))
    } else {
        v
    };
    with_rights(a.with("name"@, JsonV::Str(name)), as_op)
}

/// A new entry.
pub open spec fn fresh(name: Seq<char>, uuid: Seq<char>, as_op: bool) -> JsonV {
    with_rights(
        JsonV::Null.with("name"@, JsonV::Str(name)).with("uuid"@, JsonV::Str(uuid)),
        as_op,
    )
}

/// `list` with an entry for `name`: the first one that it has is brought up to date, or a new
/// one is added.
pub open spec fn upserted(
    list: Seq<JsonV>,
    name: Seq<char>,
    uuid: Seq<char>,
    as_op: bool,
) -> Seq<JsonV> {
    match first_named(list, name, 0) {
        Some(i) => list.update(i, updated(list[i], name, uuid, as_op)),
        None => list.push(fresh(name, uuid, as_op)),
    }
}

/// `list` without its entries for `name`.
pub open spec fn removed(list: Seq<JsonV>, name: Seq<char>) -> Seq<JsonV>
    decreases list.len(),
{
    if list.len() == 0 {
        Seq::empty()
    } else if names(list.last(), name) {
        removed(list.drop_last(), name)
    } else {
        removed(list.drop_last(), name).push(list.last())
    }
}

fn give_rights(v: Json, as_op: bool) -> (r: Json)
    requires
        v@.is_settable(),
    ensures
        r@ == with_rights(v@, as_op),
{
    if as_op {
        let level = Json::Number { text: "4".to_owned(), signed: Some(4), unsigned: Some(4) };
        v.with("level", level).with("bypassesPlayerLimit", Json::Bool(false))
    } else {
        v
    }
}

/// Puts an entry for `name` into a list: the first one that it has is brought up to date, or a
/// new one is added. The entry that it has must be an object, or nothing yet.
pub fn upsert_named(list: &mut Vec<Json>, name: &str, uuid: &str, as_op: bool)
    requires
        match first_named(json_views(old(list)@), name@, 0) {
            Some(i) => json_views(old(list)@)[i].is_settable(),
            None => true,
        },
    ensures
        json_views(final(list)@) == upserted(json_views(old(list)@), name@, uuid@, as_op),
{
    let n: usize = list.len();
    let ghost before = list@;
    let ghost all = json_views(list@);
    proof {
        lemma_json_views(before);
    }
    let mut i: usize = 0;
    while i < n
        invariant
            i <= n,
            n == list@.len(),
            list@ == before,
            all == json_views(before),
            all.len() == before.len(),
            forall|j: int| 0 <= j < all.len() ==> #[trigger] all[j] == json_view(before[j]),
            first_named(all, name@, 0) == first_named(all, name@, i as int),
            match first_named(all, name@, 0) {
                Some(i) => all[i].is_settable(),
                None => true,
            },
        ensures
            i <= n,
            i < n ==> first_named(all, name@, 0) == Some(i as int),
            i >= n ==> first_named(all, name@, 0) is None,
        decreases n - i,
    {
        assert(all[i as int] == list@[i as int]@);
        let other = list[i].text_or_empty("name");
        if same_ignoring_case(other.as_str(), name) {
            break;
        }
        i = i + 1;
    }
    if i < n {
        let item = list.remove(i);
        assert(item@ == all[i as int]);
        let item = if is_empty(uuid) {
            item
        } else {
            item.with("uuid", Json::Str(uuid.to_owned()))
        };
        let item = give_rights(item.with("name", Json::Str(name.to_owned())), as_op);
        let ghost new = item@;
        list.insert(i, item);
        proof {
            lemma_json_views(list@);
            assert(json_views(list@) == all.update(i as int, new));
        }
    } else {
        let item = Json::Null.with("name", Json::Str(name.to_owned())).with(
            "uuid",
            Json::Str(uuid.to_owned()),
        );
        let item = give_rights(item, as_op);
        let ghost new = item@;
        list.push(item);
        proof {
            lemma_json_views(list@);
            assert(json_views(list@) == all.push(new));
        }
    }
}

/// Takes the entries for `name` out of a list.
pub fn remove_named(list: &mut Vec<Json>, name: &str)
    ensures
        json_views(final(list)@) == removed(json_views(old(list)@), name@),
{
    let n: usize = list.len();
    let ghost all = json_views(list@);
    proof {
        lemma_json_views(list@);
        assert(removed(all.take(0), name@) == Seq::<JsonV>::empty());
        assert(removed(all.take(0), name@) + all.skip(0) == all);
    }
    let mut i: usize = 0;
    for k in 0..n
        invariant
            all.len() == n,
            json_views(list@) == removed(all.take(k as int), name@) + all.skip(k as int),
            i == removed(all.take(k as int), name@).len(),
            i <= k,
            list@.len() == i + n - k,
    {
        let ghost here = json_views(list@);
        let ghost kept = removed(all.take(k as int), name@);
        let ghost l0 = list@;
        proof {
            lemma_json_views(list@);
            assert(all.take(k + 1).drop_last() == all.take(k as int));
            assert(all.take(k + 1).last() == all[k as int]);
            assert(here[i as int] == all.skip(k as int)[0]);
            assert(here[i as int] == all[k as int]);
            assert(here[i as int] == l0[i as int]@);
        }
        let other = list[i].text_or_empty("name");
        if same_ignoring_case(other.as_str(), name) {
            let _ = list.remove(i);
            proof {
                lemma_json_views(list@);
                let after = json_views(list@);
                assert forall|j: int| 0 <= j < after.len() implies after[j] == (kept + all.skip(
                    k + 1,
                ))[j] by {
                    if j < i {
                        assert(list@[j] == l0[j]);
                        assert(here[j] == kept[j]);
                    } else {
                        assert(list@[j] == l0[j + 1]);
                        assert(here[j + 1] == all.skip(k as int)[j + 1 - i]);
                    }
                }
                assert(after == kept + all.skip(k + 1));
            }
        } else {
            i = i + 1;
            proof {
                assert(kept.push(all[k as int]) + all.skip(k + 1) == kept + all.skip(k as int));
            }
        }
    }
    proof {
        assert(all.take(n as int) == all);
        assert(removed(all, name@) + all.skip(n as int) == removed(all, name@));
    }
}

proof fn lemma_first_named(list: Seq<JsonV>, name: Seq<char>, i: int)
    requires
        0 <= i,
    ensures
        match first_named(list, name, i) {
            Some(k) => i <= k < list.len() && names(list[k], name) && forall|j: int|
                i <= j < k ==> !names(#[trigger] list[j], name),
            None => forall|j: int| i <= j < list.len() ==> !names(#[trigger] list[j], name),
        },
    decreases list.len() - i,
{
    if i < list.len() && !names(list[i], name) {
        lemma_first_named(list, name, i + 1);
    }
}

proof fn lemma_name_after_update(v: JsonV, name: Seq<char>, uuid: Seq<char>, as_op: bool)
    requires
        v.is_settable(),
    ensures
        updated(v, name, uuid, as_op).text("name"@) == Some(name),
        uuid.len() > 0 ==> updated(v, name, uuid, as_op).text("uuid"@) == Some(uuid),
        fresh(name, uuid, as_op).text("name"@) == Some(name),
        fresh(name, uuid, as_op).text("uuid"@) == Some(uuid),
{
    reveal_strlit("name");
    reveal_strlit("uuid");
    reveal_strlit("level");
    reveal_strlit("bypassesPlayerLimit");
    assert("name"@[0] != "uuid"@[0]);
    let a = if uuid.len() > 0 {
        v.with("uuid"@, JsonV::Str(uuid))
    } else {
        v
    };
    let b = a.with("name"@, JsonV::Str(name));
    law_set_field(v, "uuid"@, JsonV::Str(uuid), "name"@);
    law_set_field(a, "name"@, JsonV::Str(name), "uuid"@);
    lemma_rights_keep(b, as_op);
    let c = JsonV::Null.with("name"@, JsonV::Str(name));
    let d = c.with("uuid"@, JsonV::Str(uuid));
    law_set_field(JsonV::Null, "name"@, JsonV::Str(name), "uuid"@);
    law_set_field(c, "uuid"@, JsonV::Str(uuid), "name"@);
    lemma_rights_keep(d, as_op);
}

proof fn lemma_rights_keep(v: JsonV, as_op: bool)
    requires
        v.is_settable(),
    ensures
        with_rights(v, as_op).get("name"@) == v.get("name"@),
        with_rights(v, as_op).get("uuid"@) == v.get("uuid"@),
{
    reveal_strlit("name");
    reveal_strlit("uuid");
    reveal_strlit("level");
    reveal_strlit("bypassesPlayerLimit");
    assert("name"@.len() != "level"@.len());
    assert("uuid"@.len() != "level"@.len());
    assert("name"@.len() != "bypassesPlayerLimit"@.len());
    assert("uuid"@.len() != "bypassesPlayerLimit"@.len());
    let a = v.with("level"@, level_four());
    law_set_field(v, "level"@, level_four(), "name"@);
    law_set_field(v, "level"@, level_four(), "uuid"@);
    law_set_field(a, "bypassesPlayerLimit"@, JsonV::Bool(false), "name"@);
    law_set_field(a, "bypassesPlayerLimit"@, JsonV::Bool(false), "uuid"@);
}

/// Once an entry was put into a list, the list names the player as it was given, and gives the
/// identifier where one was given.
pub proof fn law_upserted_is_found(
    list: Seq<JsonV>,
    name: Seq<char>,
    uuid: Seq<char>,
    as_op: bool,
)
    requires
        match first_named(list, name, 0) {
            Some(i) => list[i].is_settable(),
            None => true,
        },
    ensures
        first_named(upserted(list, name, uuid, as_op), name, 0) is Some,
        ({
            let after = upserted(list, name, uuid, as_op);
            let v = after[first_named(after, name, 0)->0];
            v.text("name"@) == Some(name) && (uuid.len() > 0 ==> v.text("uuid"@) == Some(uuid))
        }),
{
    let after = upserted(list, name, uuid, as_op);
    lemma_first_named(list, name, 0);
    lemma_first_named(after, name, 0);
    match first_named(list, name, 0) {
        Some(i) => {
            lemma_name_after_update(list[i], name, uuid, as_op);
            assert(after[i] == updated(list[i], name, uuid, as_op));
            assert(names(after[i], name));
            let k = first_named(after, name, 0)->0;
            if k < i {
                assert(after[k] == list[k]);
                assert(!names(list[k], name));
            }
        },
        None => {
            lemma_name_after_update(JsonV::Null, name, uuid, as_op);
            assert(after[list.len() as int] == fresh(name, uuid, as_op));
            assert(names(after[list.len() as int], name));
            let k = first_named(after, name, 0)->0;
            if k < list.len() {
                assert(after[k] == list[k]);
                assert(!names(list[k], name));
            }
        },
    }
}

/// Once a player was taken out of a list, the list names the player no more.
pub proof fn law_removed_is_gone(list: Seq<JsonV>, name: Seq<char>)
    ensures
        first_named(removed(list, name), name, 0) is None,
{
    lemma_removed(list, name);
    lemma_first_named(removed(list, name), name, 0);
}

proof fn lemma_removed(list: Seq<JsonV>, name: Seq<char>)
    ensures
        forall|j: int|
            0 <= j < removed(list, name).len() ==> !names(#[trigger] removed(list, name)[j], name),
        (forall|j: int| 0 <= j < list.len() ==> !names(#[trigger] list[j], name)) ==> removed(
            list,
            name,
        ) == list,
    decreases list.len(),
{
    if list.len() > 0 {
        let init = list.drop_last();
        lemma_removed(init, name);
        assert forall|j: int| 0 <= j < removed(list, name).len() implies !names(
            #[trigger] removed(list, name)[j],
            name,
        ) by {
            if j < removed(init, name).len() {
                assert(removed(list, name)[j] == removed(init, name)[j]);
            }
        }
        if forall|j: int| 0 <= j < list.len() ==> !names(#[trigger] list[j], name) {
            assert forall|j: int| 0 <= j < init.len() implies !names(#[trigger] init[j], name) by {
                assert(init[j] == list[j]);
            }
            assert(!names(list[list.len() - 1], name));
            assert(init.push(list.last()) == list);
        }
    }
}

/// Taking a player out of a list undoes putting a new one in.
pub proof fn law_removing_undoes_adding(
    list: Seq<JsonV>,
    name: Seq<char>,
    uuid: Seq<char>,
    as_op: bool,
)
    requires
        first_named(list, name, 0) is None,
    ensures
        removed(upserted(list, name, uuid, as_op), name) == list,
{
    lemma_first_named(list, name, 0);
    lemma_removed(list, name);
    lemma_name_after_update(JsonV::Null, name, uuid, as_op);
    let after = list.push(fresh(name, uuid, as_op));
    assert(after.drop_last() == list);
    assert(names(after.last(), name));
}

// ---------------------------------------------------------------------------------------------
// Actions
// ---------------------------------------------------------------------------------------------
/// What an action does to the server's lists.
#[derive(Clone, Copy, Debug, PartialEq, Eq, Structural)]
pub enum ListChange {
    Nothing,
    AddOp,
    RemoveOp,
    AddWhitelisted,
    RemoveWhitelisted,
}

/// The player's name that was typed, trimmed; one has to be there.
pub fn player_name(typed: &str) -> (r: Result<String, String>)
    ensures
        match r {
            Ok(name) => name@ == trim(typed@) && name@.len() > 0,
            Err(e) => trim(typed@).len() == 0 && e@ == "Oyuncu adı girin."@,
        },
{
    let name = trim_text(typed);
    if is_empty(name.as_str()) {
        return Err("Oyuncu adı girin.".to_owned());
    }
    Ok(name)
}

/// The console command for an action on the player `name`; nothing for an unknown action.
pub open spec fn command_for(action: Seq<char>, name: Seq<char>) -> Seq<char> {
    if action == "op"@ {
        "op "@ + name
    } else if action == "deop"@ {
        "deop "@ + name
    } else if action == "kick"@ {
        "kick "@ + name
    } else if action == "ban"@ {
        "ban "@ + name
    } else if action == "pardon"@ {
        "pardon "@ + name
    } else if action == "wl-add"@ {
        "whitelist add "@ + name
    } else if action == "wl-remove"@ {
        "whitelist remove "@ + name
    } else {
        Seq::empty()
    }
}

/// The console command for an action on the player `name`; nothing for an unknown action.
pub fn player_command(action: &str, name: &str) -> (r: String)
    ensures
        r@ == command_for(action@, name@),
{
    if same(action, "op") {
        cat2("op ", name)
    } else if same(action, "deop") {
        cat2("deop ", name)
    } else if same(action, "kick") {
        cat2("kick ", name)
    } else if same(action, "ban") {
        cat2("ban ", name)
    } else if same(action, "pardon") {
        cat2("pardon ", name)
    } else if same(action, "wl-add") {
        cat2("whitelist add ", name)
    } else if same(action, "wl-remove") {
        cat2("whitelist remove ", name)
    } else {
        String::new()
    }
}

/// What an action does to the server's lists.
pub open spec fn change_for(action: Seq<char>) -> ListChange {
    if action == "op"@ {
        ListChange::AddOp
    } else if action == "deop"@ {
        ListChange::RemoveOp
    } else if action == "wl-add"@ {
        ListChange::AddWhitelisted
    } else if action == "wl-remove"@ {
        ListChange::RemoveWhitelisted
    } else {
        ListChange::Nothing
    }
}

/// What an action does to the server's lists.
pub fn list_change(action: &str) -> (r: ListChange)
    ensures
        r == change_for(action@),
{
    if same(action, "op") {
        ListChange::AddOp
    } else if same(action, "deop") {
        ListChange::RemoveOp
    } else if same(action, "wl-add") {
        ListChange::AddWhitelisted
    } else if same(action, "wl-remove") {
        ListChange::RemoveWhitelisted
    } else {
        ListChange::Nothing
    }
}

/// What the panel says once an action was taken; `sent` says whether its command reached a
/// running server.
pub fn player_status(action: &str, command: &str, sent: bool) -> (r: String)
    ensures
        r@ == (if sent {
            command@ + " gönderildi."@
        } else if action@ == "kick"@ || action@ == "ban"@ || action@ == "pardon"@ {
            "Sunucu kapalı. Kick/Ban için başlatın."@
        } else {
            "Yerel liste güncellendi. Komut için sunucuyu başlatın."@
        }),
{
    if sent {
        cat2(command, " gönderildi.")
    } else if same(action, "kick") || same(action, "ban") || same(action, "pardon") {
        "Sunucu kapalı. Kick/Ban için başlatın.".to_owned()
    } else {
        "Yerel liste güncellendi. Komut için sunucuyu başlatın.".to_owned()
    }
}

// ---------------------------------------------------------------------------------------------
// Laws
// ---------------------------------------------------------------------------------------------
/// Taking a player out of a list leaves every entry that does not name the player, in the same
/// order, and no other.
pub proof fn law_removing_keeps_the_others(list: Seq<JsonV>, name: Seq<char>)
    ensures
        removed(list, name) == list.filter(|v: JsonV| !names(v, name)),
        forall|i: int|
            0 <= i < list.len() && !names(#[trigger] list[i], name) ==> removed(list, name).contains(
                list[i],
            ),
    decreases list.len(),
{
    reveal(Seq::filter);
    if list.len() > 0 {
        let init = list.drop_last();
        law_removing_keeps_the_others(init, name);
        let before = removed(init, name);
        let after = removed(list, name);
        assert forall|i: int| 0 <= i < list.len() && !names(#[trigger] list[i], name) implies after.contains(
            list[i],
        ) by {
            if i < init.len() {
                assert(init[i] == list[i]);
                let j = choose|j: int| 0 <= j < before.len() && before[j] == list[i];
                assert(after[j] == list[i]);
            } else {
                assert(after[before.len() as int] == list[i]);
            }
        }
    }
}

/// An entry names a player exactly if its name is as long, and at each place holds the same
/// character, or a letter and its capital.
pub proof fn law_whom_an_entry_names(v: JsonV, name: Seq<char>)
    ensures
        names(v, name) <==> v.text_or_empty("name"@).len() == name.len() && forall|i: int|
            0 <= i < name.len() ==> {
                let x = v.text_or_empty("name"@)[i] as int;
                let y = (#[trigger] name[i]) as int;
                ||| x == y
                ||| 65 <= x <= 90 && y == x + 32
                ||| 65 <= y <= 90 && x == y + 32
            },
{
    crate::text::law_same_but_for_case(name, v.text_or_empty("name"@));
}

/// Putting a player into a list changes at most one entry, the first that names the player; where
/// none does, one is added at the end. All other entries stay where they are, as they are.
pub proof fn law_putting_in_keeps_the_others(
    list: Seq<JsonV>,
    name: Seq<char>,
    uuid: Seq<char>,
    as_op: bool,
    k: int,
)
    requires
        0 <= k <= list.len(),
        forall|i: int| 0 <= i < k ==> !names(#[trigger] list[i], name),
        k < list.len() ==> names(list[k], name),
    ensures
        upserted(list, name, uuid, as_op).len() == (if k < list.len() {
            list.len()
        } else {
            list.len() + 1
        }),
        forall|i: int|
            0 <= i < list.len() && i != k ==> upserted(list, name, uuid, as_op)[i] == #[trigger] list[i],
{
    lemma_first_named(list, name, 0);
    match first_named(list, name, 0) {
        Some(i) => {
            if i < k {
                assert(!names(list[i], name));
            } else if k < i {
                assert(names(list[k], name));
            }
        },
        None => {
            if k < list.len() {
                assert(!names(list[k], name));
            }
        },
    }
}

/// The entry that is put in for a player has the player's name; it has the identifier that was
/// given, and where none was given, the one that it had. An operator has level four and does not get
/// past a full server. All other fields of the entry stay.
pub proof fn law_what_is_put_in(
    list: Seq<JsonV>,
    name: Seq<char>,
    uuid: Seq<char>,
    as_op: bool,
    k: int,
    key: Seq<char>,
)
    requires
        0 <= k <= list.len(),
        forall|i: int| 0 <= i < k ==> !names(#[trigger] list[i], name),
        k < list.len() ==> names(list[k], name) && (list[k] is Obj || list[k] is Null),
    ensures
        ({
            let v = upserted(list, name, uuid, as_op)[k];
            let other = key != "name"@ && key != "uuid"@ && key != "level"@ && key
                != "bypassesPlayerLimit"@;
            &&& v.get("name"@) == Some(JsonV::Str(name))
            &&& uuid.len() > 0 || k == list.len() ==> v.get("uuid"@) == Some(JsonV::Str(uuid))
            &&& uuid.len() == 0 && k < list.len() ==> v.get("uuid"@) == list[k].get("uuid"@)
            &&& as_op ==> v.get("level"@) == Some(
                JsonV::Number { text: seq!['4'], signed: Some(4i64), unsigned: Some(4u64) },
            ) && v.get("bypassesPlayerLimit"@) == Some(JsonV::Bool(false))
            &&& !as_op && k < list.len() ==> v.get("level"@) == list[k].get("level"@) && v.get(
                "bypassesPlayerLimit"@,
            ) == list[k].get("bypassesPlayerLimit"@)
            &&& !as_op && k == list.len() ==> v.get("level"@) is None && v.get(
                "bypassesPlayerLimit"@,
            ) is None
            &&& other && k < list.len() ==> v.get(key) == list[k].get(key)
            &&& other && k == list.len() ==> v.get(key) is None
        }),
{
    law_putting_in_keeps_the_others(list, name, uuid, as_op, k);
    lemma_first_named(list, name, 0);
    match first_named(list, name, 0) {
        Some(i) => {
            if i < k {
                assert(!names(list[i], name));
            } else if k < i {
                assert(names(list[k], name));
            }
        },
        None => {
            if k < list.len() {
                assert(!names(list[k], name));
            }
        },
    }
    reveal_strlit("name");
    reveal_strlit("uuid");
    reveal_strlit("level");
    reveal_strlit("bypassesPlayerLimit");
    reveal_strlit("4");
    assert("4"@ =~= seq!['4']);
    assert("name"@.len() == 4 && "uuid"@.len() == 4 && "level"@.len() == 5
        && "bypassesPlayerLimit"@.len() == 19);
    assert("name"@[0] == 'n' && "uuid"@[0] == 'u');
    let base = if k < list.len() {
        list[k]
    } else {
        JsonV::Null
    };
    lemma_put_in(base, name, uuid, as_op, "name"@);
    lemma_put_in(base, name, uuid, as_op, "uuid"@);
    lemma_put_in(base, name, uuid, as_op, "level"@);
    lemma_put_in(base, name, uuid, as_op, "bypassesPlayerLimit"@);
    lemma_put_in(base, name, uuid, as_op, key);
}

/// What the field `key` of an entry holds once the entry was put in.
proof fn lemma_put_in(v: JsonV, name: Seq<char>, uuid: Seq<char>, as_op: bool, key: Seq<char>)
    requires
        v.is_settable(),
    ensures
        updated(v, name, uuid, as_op).get(key) == (if as_op && key == "bypassesPlayerLimit"@ {
            Some(JsonV::Bool(false))
        } else if as_op && key == "level"@ {
            Some(level_four())
        } else if key == "name"@ {
            Some(JsonV::Str(name))
        } else if key == "uuid"@ && uuid.len() > 0 {
            Some(JsonV::Str(uuid))
        } else {
            v.get(key)
        }),
        fresh(name, uuid, as_op).get(key) == (if as_op && key == "bypassesPlayerLimit"@ {
            Some(JsonV::Bool(false))
        } else if as_op && key == "level"@ {
            Some(level_four())
        } else if key == "uuid"@ {
            Some(JsonV::Str(uuid))
        } else if key == "name"@ {
            Some(JsonV::Str(name))
        } else {
            None
        }),
{
    let a = if uuid.len() > 0 {
        v.with("uuid"@, JsonV::Str(uuid))
    } else {
        v
    };
    let b = a.with("name"@, JsonV::Str(name));
    let c = b.with("level"@, level_four());
    law_set_field(v, "uuid"@, JsonV::Str(uuid), key);
    law_set_field(a, "name"@, JsonV::Str(name), key);
    law_set_field(b, "level"@, level_four(), key);
    law_set_field(c, "bypassesPlayerLimit"@, JsonV::Bool(false), key);
    let e = JsonV::Null.with("name"@, JsonV::Str(name));
    let f = e.with("uuid"@, JsonV::Str(uuid));
    let g = f.with("level"@, level_four());
    law_set_field(JsonV::Null, "name"@, JsonV::Str(name), key);
    law_set_field(e, "uuid"@, JsonV::Str(uuid), key);
    law_set_field(f, "level"@, level_four(), key);
    law_set_field(g, "bypassesPlayerLimit"@, JsonV::Bool(false), key);
}

/// Whether one of `list` has a name whose lower case is `key`.
pub open spec fn is_named_in(list: Seq<(Seq<char>, Seq<char>)>, key: Seq<char>) -> bool {
    exists|i: int|
        0 <= i < list.len() && (#[trigger] list[i]).0.len() > 0 && lowercase(list[i].0) == key
}

/// A player is shown exactly if one of the lists names the player; as an operator exactly if the
/// list of operators does, and as whitelisted exactly if the whitelist does.
pub proof fn law_who_is_shown(
    cache: Seq<(Seq<char>, Seq<char>)>,
    ops: Seq<(Seq<char>, Seq<char>)>,
    white: Seq<(Seq<char>, Seq<char>)>,
    key: Seq<char>,
)
    ensures
        ({
            let m = players_in(cache, ops, white);
            &&& m.contains_key(key) <==> is_named_in(cache, key) || is_named_in(ops, key)
                || is_named_in(white, key)
            &&& m.contains_key(key) ==> (m[key].is_op <==> is_named_in(ops, key)) && (
            m[key].is_whitelisted <==> is_named_in(white, key)) && lowercase(m[key].name) == key
        }),
{
    let none = Map::<Seq<char>, PlayerV>::empty();
    let a = all_noted(none, cache, Role::Known);
    let b = all_noted(a, ops, Role::Op);
    lemma_all_noted(none, cache, Role::Known, key);
    lemma_all_noted(a, ops, Role::Op, key);
    lemma_all_noted(b, white, Role::Whitelisted, key);
}

/// What noting a whole list does to one player.
proof fn lemma_all_noted(
    m: Map<Seq<char>, PlayerV>,
    list: Seq<(Seq<char>, Seq<char>)>,
    role: Role,
    key: Seq<char>,
)
    requires
        m.contains_key(key) ==> lowercase(m[key].name) == key,
    ensures
        ({
            let r = all_noted(m, list, role);
            &&& r.contains_key(key) <==> m.contains_key(key) || is_named_in(list, key)
            &&& r.contains_key(key) ==> (r[key].is_op <==> (m.contains_key(key) && m[key].is_op) || (
            role == Role::Op && is_named_in(list, key)))
            &&& r.contains_key(key) ==> (r[key].is_whitelisted <==> (m.contains_key(key)
                && m[key].is_whitelisted) || (role == Role::Whitelisted && is_named_in(list, key)))
            &&& r.contains_key(key) ==> lowercase(r[key].name) == key
        }),
    decreases list.len(),
{
    if list.len() > 0 {
        let init = list.drop_last();
        let x = list.last();
        lemma_all_noted(m, init, role, key);
        assert(is_named_in(list, key) <==> is_named_in(init, key) || (x.0.len() > 0 && lowercase(x.0)
            == key)) by {
            if is_named_in(init, key) {
                let i = choose|i: int|
                    0 <= i < init.len() && (#[trigger] init[i]).0.len() > 0 && lowercase(init[i].0) == key;
                assert(list[i] == init[i]);
            }
            if is_named_in(list, key) && !(x.0.len() > 0 && lowercase(x.0) == key) {
                let i = choose|i: int|
                    0 <= i < list.len() && (#[trigger] list[i]).0.len() > 0 && lowercase(list[i].0) == key;
                assert(init[i] == list[i]);
            }
            assert(list[list.len() - 1] == x);
        }
    } else {
        assert(!is_named_in(list, key));
    }
}

/// The first entry that names a player gives the name and, where it has one, the identifier that are
/// shown. Whatever else the lists say of the player, they stay.
pub proof fn law_first_entry_counts(
    cache: Seq<(Seq<char>, Seq<char>)>,
    ops: Seq<(Seq<char>, Seq<char>)>,
    white: Seq<(Seq<char>, Seq<char>)>,
    key: Seq<char>,
    i: int,
)
    requires
        0 <= i < cache.len(),
        cache[i].0.len() > 0,
        lowercase(cache[i].0) == key,
        !is_named_in(cache.take(i), key),
    ensures
        players_in(cache, ops, white)[key].name == cache[i].0,
        cache[i].1.len() > 0 ==> players_in(cache, ops, white)[key].uuid == cache[i].1,
{
    let none = Map::<Seq<char>, PlayerV>::empty();
    let a0 = all_noted(none, cache.take(i), Role::Known);
    lemma_all_noted(none, cache.take(i), Role::Known, key);
    assert(!a0.contains_key(key));
    let a1 = all_noted(none, cache.take(i + 1), Role::Known);
    assert(cache.take(i + 1).drop_last() == cache.take(i));
    assert(cache.take(i + 1).last() == cache[i]);
    lemma_noted_in_parts(none, cache.take(i + 1), cache.skip(i + 1), Role::Known);
    assert(cache.take(i + 1) + cache.skip(i + 1) == cache);
    lemma_name_stays(a1, cache.skip(i + 1), Role::Known, key);
    let a = all_noted(none, cache, Role::Known);
    lemma_name_stays(a, ops, Role::Op, key);
    lemma_name_stays(all_noted(a, ops, Role::Op), white, Role::Whitelisted, key);
}

proof fn lemma_noted_in_parts(
    m: Map<Seq<char>, PlayerV>,
    a: Seq<(Seq<char>, Seq<char>)>,
    b: Seq<(Seq<char>, Seq<char>)>,
    role: Role,
)
    ensures
        all_noted(m, a + b, role) == all_noted(all_noted(m, a, role), b, role),
    decreases b.len(),
{
    if b.len() > 0 {
        lemma_noted_in_parts(m, a, b.drop_last(), role);
        assert((a + b).drop_last() == a + b.drop_last());
        assert((a + b).last() == b.last());
    } else {
        assert(a + b == a);
    }
}

proof fn lemma_name_stays(
    m: Map<Seq<char>, PlayerV>,
    list: Seq<(Seq<char>, Seq<char>)>,
    role: Role,
    key: Seq<char>,
)
    requires
        m.contains_key(key),
    ensures
        all_noted(m, list, role).contains_key(key),
        all_noted(m, list, role)[key].name == m[key].name,
        m[key].uuid.len() > 0 ==> all_noted(m, list, role)[key].uuid == m[key].uuid,
    decreases list.len(),
{
    if list.len() > 0 {
        lemma_name_stays(m, list.drop_last(), role, key);
    }
}

/// The players are shown in the order of their names in lower case, each once, and each as the lists
/// say.
pub proof fn law_players_in_order(m: Map<Seq<char>, PlayerV>, items: Seq<PlayerV>)
    requires
        lists(m, items),
    ensures
        forall|i: int, j: int|
            0 <= i < j < items.len() ==> precedes(
                lowercase((#[trigger] items[i]).name),
                lowercase((#[trigger] items[j]).name),
            ),
        forall|i: int|
            0 <= i < items.len() ==> m.contains_key(lowercase((#[trigger] items[i]).name))
                && m[lowercase(items[i].name)] == items[i],
        forall|k: Seq<char>| #[trigger]
            m.contains_key(k) ==> exists|i: int|
                0 <= i < items.len() && lowercase((#[trigger] items[i]).name) == k,
{
    let keys = keys_of(items);
    assert(keys.len() == items.len());
    assert forall|i: int, j: int| 0 <= i < j < items.len() implies precedes(
        lowercase((#[trigger] items[i]).name),
        lowercase((#[trigger] items[j]).name),
    ) by {
        assert(precedes(keys[i], keys[j]));
    }
    lemma_ascending_distinct(keys);
    lemma_as_map(keys, items);
    assert forall|i: int| 0 <= i < items.len() implies m.contains_key(
        lowercase((#[trigger] items[i]).name),
    ) && m[lowercase(items[i].name)] == items[i] by {
        assert(keys[i] == lowercase(items[i].name));
        assert(keys.contains(keys[i]));
    }
    assert forall|k: Seq<char>| #[trigger] m.contains_key(k) implies exists|i: int|
        0 <= i < items.len() && lowercase((#[trigger] items[i]).name) == k by {
        assert(keys.contains(k));
        let i = choose|i: int| 0 <= i < keys.len() && keys[i] == k;
        assert(lowercase(items[i].name) == k);
    }
}

/// Whether the entry `e` gives an identifier for `name`, whatever the case of its letters.
pub open spec fn identifies(e: (Seq<char>, Seq<char>), name: Seq<char>) -> bool {
    lower(e.0) == lower(name) && e.1.len() > 0
}

/// The identifier of a player is that of the first entry, of the first list, that gives one for the
/// player; where none does, it is empty.
pub proof fn law_identifier(lists: Seq<Seq<(Seq<char>, Seq<char>)>>, name: Seq<char>, l: int, i: int)
    ensures
        (forall|a: int, b: int|
            0 <= a < lists.len() && 0 <= b < lists[a].len() ==> !identifies(
                #[trigger] lists[a][b],
                name,
            )) ==> uuid_among(lists, name) == Seq::<char>::empty(),
        0 <= l < lists.len() && 0 <= i < lists[l].len() && identifies(lists[l][i], name) && (forall|
            a: int,
            b: int,
        |
            0 <= a < lists.len() && 0 <= b < lists[a].len() && (a < l || (a == l && b < i))
                ==> !identifies(#[trigger] lists[a][b], name)) ==> uuid_among(lists, name)
            == lists[l][i].1,
    decreases lists.len(),
{
    if lists.len() > 0 {
        let first = lists.first();
        let rest = lists.drop_first();
        lemma_uuid_in(first, name);
        assert(lists[0] == first);
        assert forall|a: int, b: int| 0 <= a < rest.len() && 0 <= b < rest[a].len() implies rest[a][b]
            == #[trigger] lists[a + 1][b] by {}
        law_identifier(rest, name, l - 1, i);
        if forall|a: int, b: int|
            0 <= a < lists.len() && 0 <= b < lists[a].len() ==> !identifies(
                #[trigger] lists[a][b],
                name,
            ) {
            assert forall|a: int, b: int|
                0 <= a < rest.len() && 0 <= b < rest[a].len() implies !identifies(
                #[trigger] rest[a][b],
                name,
            ) by {
                assert(rest[a][b] == lists[a + 1][b]);
            }
            if uuid_in(first, name) is Some {
                let k = choose|k: int|
                    0 <= k < first.len() && identifies(#[trigger] first[k], name);
                assert(lists[0][k] == first[k]);
            }
        }
        if 0 <= l < lists.len() && 0 <= i < lists[l].len() && identifies(lists[l][i], name) && (forall|
            a: int,
            b: int,
        |
            0 <= a < lists.len() && 0 <= b < lists[a].len() && (a < l || (a == l && b < i))
                ==> !identifies(#[trigger] lists[a][b], name)) {
            if l == 0 {
                let k = choose|k: int|
                    0 <= k < first.len() && identifies(#[trigger] first[k], name) && uuid_in(
                        first,
                        name,
                    ) == Some(first[k].1) && forall|j: int|
                        0 <= j < k ==> !identifies(#[trigger] first[j], name);
                if k < i {
                    assert(!identifies(lists[0][k], name));
                } else if i < k {
                    assert(identifies(first[i], name));
                }
            } else {
                if uuid_in(first, name) is Some {
                    let k = choose|k: int|
                        0 <= k < first.len() && identifies(#[trigger] first[k], name);
                    assert(!identifies(lists[0][k], name));
                }
                assert(rest[l - 1] == lists[l]);
                assert forall|a: int, b: int|
                    0 <= a < rest.len() && 0 <= b < rest[a].len() && (a < l - 1 || (a == l - 1 && b
                        < i)) implies !identifies(#[trigger] rest[a][b], name) by {
                    assert(rest[a][b] == lists[a + 1][b]);
                }
            }
        }
    }
}

/// What one list gives for a player.
proof fn lemma_uuid_in(list: Seq<(Seq<char>, Seq<char>)>, name: Seq<char>)
    ensures
        uuid_in(list, name) is Some ==> exists|k: int|
            0 <= k < list.len() && identifies(#[trigger] list[k], name) && uuid_in(list, name) == Some(
                list[k].1,
            ) && forall|j: int| 0 <= j < k ==> !identifies(#[trigger] list[j], name),
        uuid_in(list, name) is None ==> forall|j: int|
            0 <= j < list.len() ==> !identifies(#[trigger] list[j], name),
    decreases list.len(),
{
    if list.len() > 0 {
        let rest = list.drop_first();
        lemma_uuid_in(rest, name);
        assert(list[0] == list.first());
        if identifies(list[0], name) {
            assert(uuid_in(list, name) == Some(list[0].1));
        } else {
            assert forall|j: int| 0 < j < list.len() implies #[trigger] list[j] == rest[j - 1] by {}
            if uuid_in(rest, name) is Some {
                let k = choose|k: int|
                    0 <= k < rest.len() && identifies(#[trigger] rest[k], name) && uuid_in(rest, name)
                        == Some(rest[k].1) && forall|j: int|
                        0 <= j < k ==> !identifies(#[trigger] rest[j], name);
                assert(list[k + 1] == rest[k]);
                assert forall|j: int| 0 <= j < k + 1 implies !identifies(#[trigger] list[j], name) by {
                    if j > 0 {
                        assert(list[j] == rest[j - 1]);
                        assert(!identifies(rest[j - 1], name));
                    }
                }
            } else {
                assert forall|j: int| 0 <= j < list.len() implies !identifies(#[trigger] list[j], name) by {
                    if j > 0 {
                        assert(list[j] == rest[j - 1]);
                        assert(!identifies(rest[j - 1], name));
                    }
                }
            }
        }
    }
}

/// Each action is its own command of the server, with the player's name after it, and changes the
/// list that it is about; there are no others.
pub proof fn law_actions(action: Seq<char>, name: Seq<char>)
    ensures
        command_for("op"@, name) == "op "@ + name,
        command_for("deop"@, name) == "deop "@ + name,
        command_for("kick"@, name) == "kick "@ + name,
        command_for("ban"@, name) == "ban "@ + name,
        command_for("pardon"@, name) == "pardon "@ + name,
        command_for("wl-add"@, name) == "whitelist add "@ + name,
        command_for("wl-remove"@, name) == "whitelist remove "@ + name,
        change_for(action) == ListChange::AddOp <==> action == "op"@,
        change_for(action) == ListChange::RemoveOp <==> action == "deop"@,
        change_for(action) == ListChange::AddWhitelisted <==> action == "wl-add"@,
        change_for(action) == ListChange::RemoveWhitelisted <==> action == "wl-remove"@,
        action != "op"@ && action != "deop"@ && action != "kick"@ && action != "ban"@ && action
            != "pardon"@ && action != "wl-add"@ && action != "wl-remove"@ ==> command_for(action, name)
            == Seq::<char>::empty(),
{
    reveal_strlit("op");
    reveal_strlit("deop");
    reveal_strlit("kick");
    reveal_strlit("ban");
    reveal_strlit("pardon");
    reveal_strlit("wl-add");
    reveal_strlit("wl-remove");
    assert("op"@.len() == 2 && "deop"@.len() == 4 && "kick"@.len() == 4 && "ban"@.len() == 3
        && "pardon"@.len() == 6 && "wl-add"@.len() == 6 && "wl-remove"@.len() == 9);
    assert("deop"@[0] == 'd' && "kick"@[0] == 'k' && "pardon"@[0] == 'p' && "wl-add"@[0] == 'w');
}

/// A list is seen entry by entry: the name and the identifier of each. A player is shown with name,
/// identifier and both roles.
pub proof fn law_lists_of_players(
    list: Seq<McNamed>,
    entries: Seq<JsonV>,
    lists: Seq<Vec<McNamed>>,
    items: Seq<PlayerItem>,
)
    ensures
        named(list).len() == list.len(),
        forall|i: int|
            0 <= i < list.len() ==> #[trigger] named(list)[i] == (list[i].name@, list[i].uuid@),
        json_named(entries).len() == entries.len(),
        forall|i: int|
            0 <= i < entries.len() ==> #[trigger] json_named(entries)[i] == (
                entries[i].text_or_empty("name"@),
                entries[i].text_or_empty("uuid"@),
            ),
        all_named(lists).len() == lists.len(),
        forall|i: int| 0 <= i < lists.len() ==> #[trigger] all_named(lists)[i] == named(lists[i]@),
        shown(items).len() == items.len(),
        forall|i: int|
            0 <= i < items.len() ==> {
                let p = #[trigger] shown(items)[i];
                &&& p.name == items[i].name@ && p.uuid == items[i].uuid@
                &&& p.is_op == items[i].is_op && p.is_whitelisted == items[i].is_whitelisted
            },
{
}

/// A player whom only the operators' list names is shown as it names the player; one whom only the
/// whitelist names, as that does. An identifier that is missing is filled in by the list that has it.
pub proof fn law_names_of_the_other_lists(
    cache: Seq<(Seq<char>, Seq<char>)>,
    ops: Seq<(Seq<char>, Seq<char>)>,
    white: Seq<(Seq<char>, Seq<char>)>,
    key: Seq<char>,
    i: int,
)
    ensures
        !is_named_in(cache, key) && 0 <= i < ops.len() && ops[i].0.len() > 0 && lowercase(ops[i].0)
            == key && !is_named_in(ops.take(i), key) ==> players_in(cache, ops, white)[key].name
            == ops[i].0 && (ops[i].1.len() > 0 ==> players_in(cache, ops, white)[key].uuid == ops[i].1),
        !is_named_in(cache, key) && !is_named_in(ops, key) && 0 <= i < white.len() && white[i].0.len()
            > 0 && lowercase(white[i].0) == key && !is_named_in(white.take(i), key) ==> players_in(
            cache,
            ops,
            white,
        )[key].name == white[i].0 && (white[i].1.len() > 0 ==> players_in(
            cache,
            ops,
            white,
        )[key].uuid == white[i].1),
{
    let none = Map::<Seq<char>, PlayerV>::empty();
    let a = all_noted(none, cache, Role::Known);
    let b = all_noted(a, ops, Role::Op);
    lemma_all_noted(none, cache, Role::Known, key);
    lemma_all_noted(a, ops, Role::Op, key);
    if !is_named_in(cache, key) && 0 <= i < ops.len() && ops[i].0.len() > 0 && lowercase(ops[i].0) == key
        && !is_named_in(ops.take(i), key) {
        lemma_first_note(a, ops, Role::Op, key, i);
        lemma_name_stays(b, white, Role::Whitelisted, key);
    }
    if !is_named_in(cache, key) && !is_named_in(ops, key) && 0 <= i < white.len() && white[i].0.len() > 0
        && lowercase(white[i].0) == key && !is_named_in(white.take(i), key) {
        lemma_first_note(b, white, Role::Whitelisted, key, i);
    }
}

/// The first entry of a list that names a player whom no list named yet.
proof fn lemma_first_note(
    m: Map<Seq<char>, PlayerV>,
    list: Seq<(Seq<char>, Seq<char>)>,
    role: Role,
    key: Seq<char>,
    i: int,
)
    requires
        !m.contains_key(key),
        0 <= i < list.len(),
        list[i].0.len() > 0,
        lowercase(list[i].0) == key,
        !is_named_in(list.take(i), key),
    ensures
        all_noted(m, list, role).contains_key(key),
        all_noted(m, list, role)[key].name == list[i].0,
        list[i].1.len() > 0 ==> all_noted(m, list, role)[key].uuid == list[i].1,
{
    lemma_all_noted(m, list.take(i), role, key);
    assert(list.take(i + 1).drop_last() == list.take(i));
    assert(list.take(i + 1).last() == list[i]);
    lemma_noted_in_parts(m, list.take(i + 1), list.skip(i + 1), role);
    assert(list.take(i + 1) + list.skip(i + 1) == list);
    lemma_name_stays(all_noted(m, list.take(i + 1), role), list.skip(i + 1), role, key);
}

} // verus!
