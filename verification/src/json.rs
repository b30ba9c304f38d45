//! JSON values: what is read from them, and how a field of one is set.
use vstd::prelude::*;

use crate::text::same;

verus! {

/// A value as the parser gives it.
#[verifier::external_type_specification]
#[verifier::external_body]
pub struct ExValue(serde_json::Value);

/// Why bytes are no JSON.
#[verifier::external_type_specification]
#[verifier::external_body]
pub struct ExError(serde_json::Error);

/// A JSON value. A number is kept as its text, with its value where it fits in 64 bits.
pub enum Json {
    Null,
    Bool(bool),
    Number { text: String, signed: Option<i64>, unsigned: Option<u64> },
    Str(String),
    Arr(Vec<Json>),
    Obj(Vec<(String, Json)>),
}

/// What a JSON value holds.
pub enum JsonV {
    Null,
    Bool(bool),
    Number { text: Seq<char>, signed: Option<i64>, unsigned: Option<u64> },
    Str(Seq<char>),
    Arr(Seq<JsonV>),
    Obj(Seq<(Seq<char>, JsonV)>),
}

/// What the value `j` holds.
pub open spec fn json_view(j: Json) -> JsonV
    decreases j,
{
    match j {
        Json::Null => JsonV::Null,
        Json::Bool(b) => JsonV::Bool(b),
        Json::Number { text, signed, unsigned } => JsonV::Number { text: text@, signed, unsigned },
        Json::Str(s) => JsonV::Str(s@),
        Json::Arr(v) => JsonV::Arr(json_views(v@)),
        Json::Obj(v) => JsonV::Obj(json_fields(v@)),
    }
}

/// What each of the values `s` holds.
pub open spec fn json_views(s: Seq<Json>) -> Seq<JsonV>
    decreases s,
{
    if s.len() == 0 {
        Seq::empty()
    } else {
        json_views(s.subrange(0, s.len() - 1)).push(json_view(s[s.len() - 1]))
    }
}

/// The name of each of the fields `s`, and what it holds.
pub open spec fn json_fields(s: Seq<(String, Json)>) -> Seq<(Seq<char>, JsonV)>
    decreases s,
{
    if s.len() == 0 {
        Seq::empty()
    } else {
        json_fields(s.subrange(0, s.len() - 1)).push(
            (s[s.len() - 1].0@, json_view(s[s.len() - 1].1)),
        )
    }
}

impl View for Json {
    type V = JsonV;

    open spec fn view(&self) -> JsonV {
        json_view(*self)
    }
}

/// The place of the field `key` among `fields`.
pub open spec fn field_index(fields: Seq<(Seq<char>, JsonV)>, key: Seq<char>) -> Option<int>
    decreases fields.len(),
{
    if fields.len() == 0 {
        None
    } else if fields.last().0 == key {
        Some(fields.len() - 1)
    } else {
        field_index(fields.drop_last(), key)
    }
}

/// `fields` with the field `key` set to `value`.
pub open spec fn with_field(
    fields: Seq<(Seq<char>, JsonV)>,
    key: Seq<char>,
    value: JsonV,
) -> Seq<(Seq<char>, JsonV)> {
    match field_index(fields, key) {
        Some(i) => fields.update(i, (key, value)),
        None => fields.push((key, value)),
    }
}

impl JsonV {
    /// The field `key` of an object.
    pub open spec fn get(self, key: Seq<char>) -> Option<JsonV> {
        match self {
            JsonV::Obj(fields) => match field_index(fields, key) {
                Some(i) => Some(fields[i].1),
                None => None,
            },
            _ => None,
        }
    }

    /// The text that the value is.
    pub open spec fn as_str(self) -> Option<Seq<char>> {
        match self {
            JsonV::Str(s) => Some(s),
            _ => None,
        }
    }

    /// The number that the value is, where it fits in 64 bits without a sign.
    pub open spec fn as_u64(self) -> Option<u64> {
        match self {
            JsonV::Number { text, signed, unsigned } => unsigned,
            _ => None,
        }
    }

    /// The number that the value is, where it fits in 64 bits with a sign.
    pub open spec fn as_i64(self) -> Option<i64> {
        match self {
            JsonV::Number { text, signed, unsigned } => signed,
            _ => None,
        }
    }

    /// The truth value that the value is.
    pub open spec fn as_bool(self) -> Option<bool> {
        match self {
            JsonV::Bool(b) => Some(b),
            _ => None,
        }
    }

    /// The items of an array.
    pub open spec fn as_array(self) -> Option<Seq<JsonV>> {
        match self {
            JsonV::Arr(v) => Some(v),
            _ => None,
        }
    }

    /// The text of the field `key`.
    pub open spec fn text(self, key: Seq<char>) -> Option<Seq<char>> {
        match self.get(key) {
            Some(v) => v.as_str(),
            None => None,
        }
    }

    /// The text of the field `key`, or nothing where it has none.
    pub open spec fn text_or_empty(self, key: Seq<char>) -> Seq<char> {
        match self.text(key) {
            Some(s) => s,
            None => Seq::empty(),
        }
    }

    /// The number in the field `key`.
    pub open spec fn number(self, key: Seq<char>) -> Option<u64> {
        match self.get(key) {
            Some(v) => v.as_u64(),
            None => None,
        }
    }

    /// The items of the array in the field `key`.
    pub open spec fn items(self, key: Seq<char>) -> Option<Seq<JsonV>> {
        match self.get(key) {
            Some(v) => v.as_array(),
            None => None,
        }
    }

    /// Whether a field can be set: the value is an object, or nothing yet.
    pub open spec fn is_settable(self) -> bool {
        self is Obj || self is Null
    }

    /// The value with the field `key` set to `value`.
    pub open spec fn with(self, key: Seq<char>, value: JsonV) -> JsonV {
        match self {
            JsonV::Obj(fields) => JsonV::Obj(with_field(fields, key, value)),
            _ => JsonV::Obj(seq![(key, value)]),
        }
    }
}

// ---------------------------------------------------------------------------------------------
// Parsing
// ---------------------------------------------------------------------------------------------
/// What `serde_json::from_slice` reads from bytes, where they are JSON.
pub uninterp spec fn json_parsed(bytes: Seq<u8>) -> Option<JsonV>;

/// What a value of `serde_json` holds.
pub uninterp spec fn json_model(v: serde_json::Value) -> JsonV;

/// `serde_json::from_slice`: whether it reads a value, and what that value holds, depends on the
/// bytes alone.
#[verifier::external_body]
fn value_of(bytes: &[u8]) -> (r: Result<serde_json::Value, serde_json::Error>)
    ensures
        match r {
            Ok(v) => json_parsed(bytes@) == Some(json_model(v)),
            Err(_) => json_parsed(bytes@) is None,
        },
{
    serde_json::from_slice(bytes)
}

/// The variants of `serde_json::Value`, one for one, down to the leaves: the result holds what
/// the value holds. A number is taken by `Number::to_string`, `as_i64` and `as_u64`.
#[verifier::external_body]
fn plain(v: serde_json::Value) -> (r: Json)
    ensures
        r@ == json_model(v),
{
    match v {
        serde_json::Value::Null => Json::Null,
        serde_json::Value::Bool(b) => Json::Bool(b),
        serde_json::Value::Number(n) => {
            Json::Number { text: n.to_string(), signed: n.as_i64(), unsigned: n.as_u64() }
        },
        serde_json::Value::String(s) => Json::Str(s),
        serde_json::Value::Array(v) => Json::Arr(v.into_iter().map(plain).collect()),
        serde_json::Value::Object(m) => Json::Obj(m.into_iter().map(|(k, v)| (k, plain(v))).collect()),
    }
}

/// The JSON value that `bytes` are the text of.
pub fn parse_json(bytes: &[u8]) -> (r: Option<Json>)
    ensures
        match r {
            Some(j) => json_parsed(bytes@) == Some(j@),
            None => json_parsed(bytes@) is None,
        },
{
    match value_of(bytes) {
        Ok(v) => Some(plain(v)),
        Err(_) => None,
    }
}

// ---------------------------------------------------------------------------------------------
// Reading
// ---------------------------------------------------------------------------------------------
/// Each value is seen by itself.
pub proof fn lemma_json_views(s: Seq<Json>)
    ensures
        json_views(s).len() == s.len(),
        forall|i: int| 0 <= i < s.len() ==> #[trigger] json_views(s)[i] == json_view(s[i]),
    decreases s.len(),
{
    if s.len() > 0 {
        let init = s.subrange(0, s.len() - 1);
        lemma_json_views(init);
        assert forall|i: int| 0 <= i < s.len() implies #[trigger] json_views(s)[i] == json_view(
            s[i],
        ) by {
            if i < s.len() - 1 {
                assert(json_views(s)[i] == json_views(init)[i]);
                assert(init[i] == s[i]);
            }
        }
    }
}

/// Each field is seen by itself.
pub proof fn lemma_json_fields(s: Seq<(String, Json)>)
    ensures
        json_fields(s).len() == s.len(),
        forall|i: int|
            0 <= i < s.len() ==> #[trigger] json_fields(s)[i] == (s[i].0@, json_view(s[i].1)),
    decreases s.len(),
{
    if s.len() > 0 {
        let init = s.subrange(0, s.len() - 1);
        lemma_json_fields(init);
        assert forall|i: int| 0 <= i < s.len() implies #[trigger] json_fields(s)[i] == (
            s[i].0@,
            json_view(s[i].1),
        ) by {
            if i < s.len() - 1 {
                assert(json_fields(s)[i] == json_fields(init)[i]);
                assert(init[i] == s[i]);
            }
        }
    }
}

/// The place that [`field_index`] gives is that of the field.
pub proof fn lemma_field_index(fields: Seq<(Seq<char>, JsonV)>, key: Seq<char>)
    ensures
        match field_index(fields, key) {
            Some(i) => 0 <= i < fields.len() && fields[i].0 == key,
            None => forall|i: int| 0 <= i < fields.len() ==> (#[trigger] fields[i]).0 != key,
        },
    decreases fields.len(),
{
    if fields.len() > 0 && fields.last().0 != key {
        let init = fields.drop_last();
        lemma_field_index(init, key);
        if field_index(init, key) is None {
            assert forall|i: int| 0 <= i < fields.len() implies (#[trigger] fields[i]).0
                != key by {
                if i < init.len() {
                    assert(init[i] == fields[i]);
                }
            }
        }
    }
}

/// The place of the field `key` among `fields`.
fn find_field(fields: &Vec<(String, Json)>, key: &str) -> (r: Option<usize>)
    ensures
        match r {
            Some(i) => i < fields@.len() && field_index(json_fields(fields@), key@) == Some(
                i as int,
            ),
            None => field_index(json_fields(fields@), key@) is None,
        },
{
    let mut i: usize = fields.len();
    let ghost all = json_fields(fields@);
    proof {
        lemma_json_fields(fields@);
        assert(all.take(i as int) == all);
    }
    while i > 0
        invariant
            i <= fields@.len(),
            all == json_fields(fields@),
            all.len() == fields@.len(),
            forall|j: int|
                0 <= j < fields@.len() ==> #[trigger] all[j] == (
                    fields@[j].0@,
                    json_view(fields@[j].1),
                ),
            field_index(all, key@) == field_index(all.take(i as int), key@),
        decreases i,
    {
        assert(all.take(i as int).last() == all[i - 1]);
        assert(all.take(i as int).drop_last() == all.take(i - 1));
        if same(fields[i - 1].0.as_str(), key) {
            return Some(i - 1);
        }
        i = i - 1;
    }
    assert(all.take(0) == Seq::<(Seq<char>, JsonV)>::empty());
    None
}

impl Json {
    /// The field `key` of an object.
    pub fn get(&self, key: &str) -> (r: Option<&Json>)
        ensures
            match r {
                Some(j) => self@.get(key@) == Some(j@),
                None => self@.get(key@) is None,
            },
    {
        match self {
            Json::Obj(fields) => match find_field(fields, key) {
                Some(i) => {
                    proof {
                        lemma_json_fields(fields@);
                    }
                    assert(json_fields(fields@)[i as int].1 == json_view(fields@[i as int].1));
                    Some(&fields[i].1)
                },
                None => None,
            },
            _ => None,
        }
    }

    /// The text that the value is.
    pub fn as_str(&self) -> (r: Option<&String>)
        ensures
            match r {
                Some(s) => self@.as_str() == Some(s@),
                None => self@.as_str() is None,
            },
    {
        match self {
            Json::Str(s) => Some(s),
            _ => None,
        }
    }

    /// The number that the value is, where it fits in 64 bits without a sign.
    pub fn as_u64(&self) -> (r: Option<u64>)
        ensures
            r == self@.as_u64(),
    {
        match self {
            Json::Number { text: _, signed: _, unsigned } => *unsigned,
            _ => None,
        }
    }

    /// The number that the value is, where it fits in 64 bits with a sign.
    pub fn as_i64(&self) -> (r: Option<i64>)
        ensures
            r == self@.as_i64(),
    {
        match self {
            Json::Number { text: _, signed, unsigned: _ } => *signed,
            _ => None,
        }
    }

    /// The truth value that the value is.
    pub fn as_bool(&self) -> (r: Option<bool>)
        ensures
            r == self@.as_bool(),
    {
        match self {
            Json::Bool(b) => Some(*b),
            _ => None,
        }
    }

    /// The items of an array.
    pub fn as_array(&self) -> (r: Option<&Vec<Json>>)
        ensures
            match r {
                Some(v) => self@.as_array() == Some(json_views(v@)),
                None => self@.as_array() is None,
            },
    {
        match self {
            Json::Arr(v) => Some(v),
            _ => None,
        }
    }

    /// The text of the field `key`.
    pub fn text(&self, key: &str) -> (r: Option<String>)
        ensures
            match r {
                Some(s) => self@.text(key@) == Some(s@),
                None => self@.text(key@) is None,
            },
    {
        match self.get(key) {
            Some(j) => match j.as_str() {
                Some(s) => Some(s.clone()),
                None => None,
            },
            None => None,
        }
    }

    /// The text of the field `key`, or nothing where it has none.
    pub fn text_or_empty(&self, key: &str) -> (r: String)
        ensures
            r@ == self@.text_or_empty(key@),
    {
        match self.text(key) {
            Some(s) => s,
            None => String::new(),
        }
    }

    /// The number in the field `key`.
    pub fn number(&self, key: &str) -> (r: Option<u64>)
        ensures
            r == self@.number(key@),
    {
        match self.get(key) {
            Some(j) => j.as_u64(),
            None => None,
        }
    }

    /// The items of the array in the field `key`.
    pub fn items(&self, key: &str) -> (r: Option<&Vec<Json>>)
        ensures
            match r {
                Some(v) => self@.items(key@) == Some(json_views(v@)),
                None => self@.items(key@) is None,
            },
    {
        match self.get(key) {
            Some(j) => j.as_array(),
            None => None,
        }
    }

    /// The value with the field `key` set to `value`.
    pub fn with(self, key: &str, value: Json) -> (r: Json)
        requires
            self@.is_settable(),
        ensures
            r@ == self@.with(key@, value@),
    {
        match self {
            Json::Obj(fields) => {
                let mut fields = fields;
                let ghost before = fields@;
                let place = find_field(&fields, key);
                let pair = (key.to_owned(), value);
                let ghost p0 = pair;
                match place {
                    Some(i) => {
                        fields.set(i, pair);
                    },
                    None => {
                        fields.push(pair);
                    },
                }
                proof {
                    lemma_json_fields(before);
                    lemma_json_fields(fields@);
                    assert(p0.0@ == key@);
                    assert(json_fields(fields@) == with_field(json_fields(before), key@, value@));
                }
                Json::Obj(fields)
            },
            _ => {
                let pair = (key.to_owned(), value);
                let mut fields: Vec<(String, Json)> = Vec::new();
                fields.push(pair);
                proof {
                    lemma_json_fields(fields@);
                    assert(json_fields(fields@) == seq![(key@, value@)]);
                }
                Json::Obj(fields)
            },
        }
    }
}

// ---------------------------------------------------------------------------------------------
// Laws
// ---------------------------------------------------------------------------------------------
/// Setting a field leaves the places of the others as they are.
proof fn lemma_index_after_update(
    fields: Seq<(Seq<char>, JsonV)>,
    i: int,
    value: JsonV,
    key: Seq<char>,
)
    requires
        0 <= i < fields.len(),
    ensures
        field_index(fields.update(i, (fields[i].0, value)), key) == field_index(fields, key),
    decreases fields.len(),
{
    let after = fields.update(i, (fields[i].0, value));
    assert(after.last().0 == fields.last().0);
    if i < fields.len() - 1 {
        lemma_index_after_update(fields.drop_last(), i, value, key);
        assert(after.drop_last() == fields.drop_last().update(i, (fields[i].0, value)));
    } else {
        assert(after.drop_last() == fields.drop_last());
    }
}

/// A field that was set is read back, and the other fields are as they were.
pub proof fn law_set_field(j: JsonV, key: Seq<char>, value: JsonV, other: Seq<char>)
    requires
        j.is_settable(),
    ensures
        j.with(key, value).get(key) == Some(value),
        other != key ==> j.with(key, value).get(other) == j.get(other),
{
    match j {
        JsonV::Obj(fields) => {
            lemma_field_index(fields, key);
            match field_index(fields, key) {
                Some(i) => {
                    lemma_index_after_update(fields, i, value, key);
                    lemma_index_after_update(fields, i, value, other);
                    lemma_field_index(fields, other);
                    let after = fields.update(i, (key, value));
                    assert(j.with(key, value) == JsonV::Obj(after));
                    assert(field_index(after, other) == field_index(fields, other));
                    if other != key && field_index(fields, other) is Some {
                        let k = field_index(fields, other)->0;
                        assert(k != i);
                        assert(after[k] == fields[k]);
                    }
                },
                None => {
                    let after = fields.push((key, value));
                    assert(after.drop_last() == fields);
                    assert(j.with(key, value) == JsonV::Obj(after));
                    lemma_field_index(fields, other);
                    if other != key {
                        assert(after.last().0 != other);
                        assert(field_index(after, other) == field_index(fields, other));
                        if field_index(fields, other) is Some {
                            let k = field_index(fields, other)->0;
                            assert(after[k] == fields[k]);
                        }
                    }
                },
            }
        },
        _ => {
            let one = seq![(key, value)];
            assert(one.last() == (key, value));
            let none = Seq::<(Seq<char>, JsonV)>::empty();
            assert(one.drop_last() == none);
            assert(field_index(none, other) is None);
        },
    }
}

/// A field of an object is the last one of its name, and there is none where none has the name;
/// nothing else has fields.
pub proof fn law_get(fields: Seq<(Seq<char>, JsonV)>, key: Seq<char>, i: int)
    ensures
        0 <= i < fields.len() && fields[i].0 == key && (forall|j: int|
            i < j < fields.len() ==> (#[trigger] fields[j]).0 != key) ==> JsonV::Obj(fields).get(key)
            == Some(fields[i].1),
        (forall|j: int| 0 <= j < fields.len() ==> (#[trigger] fields[j]).0 != key) ==> JsonV::Obj(
            fields,
        ).get(key) is None,
    decreases fields.len(),
{
    if fields.len() > 0 {
        let init = fields.drop_last();
        assert(fields[fields.len() - 1] == fields.last());
        if fields.last().0 != key {
            if 0 <= i < init.len() {
                assert(init[i] == fields[i]);
            }
            if 0 <= i && forall|j: int| i < j < fields.len() ==> (#[trigger] fields[j]).0 != key {
                assert forall|j: int| i < j < init.len() implies (#[trigger] init[j]).0 != key by {
                    assert(init[j] == fields[j]);
                }
            }
            if forall|j: int| 0 <= j < fields.len() ==> (#[trigger] fields[j]).0 != key {
                assert forall|j: int| 0 <= j < init.len() implies (#[trigger] init[j]).0 != key by {
                    assert(init[j] == fields[j]);
                }
            }
            law_get(init, key, i);
            lemma_field_index(init, key);
        }
    }
}

/// A field has a text exactly if it is one, a number exactly if it is one without a sign, and items
/// exactly if it is an array.
pub proof fn law_typed_fields(j: JsonV, key: Seq<char>, s: Seq<char>, v: Seq<JsonV>)
    ensures
        j.get(key) == Some(JsonV::Str(s)) ==> j.text(key) == Some(s) && j.text_or_empty(key) == s,
        j.text(key) is Some ==> j.get(key) == Some(JsonV::Str(j.text(key)->0)),
        j.text(key) is None ==> j.text_or_empty(key) == Seq::<char>::empty(),
        j.number(key) is Some ==> j.get(key) is Some && j.get(key)->0 is Number && j.get(key)->0->unsigned
            == j.number(key),
        j.get(key) is Some && j.get(key)->0 is Number ==> j.number(key) == j.get(key)->0->unsigned,
        j.items(key) is Some ==> j.get(key) == Some(JsonV::Arr(j.items(key)->0)),
        j.get(key) == Some(JsonV::Arr(v)) ==> j.items(key) == Some(v),
        j.get(key) is Some ==> j is Obj,
{
}

/// Values are read as what they are.
pub proof fn law_plain_values(s: Seq<char>, b: bool, v: Seq<JsonV>, signed: Option<i64>, unsigned: Option<u64>)
    ensures
        JsonV::Str(s).as_str() == Some(s),
        JsonV::Bool(b).as_bool() == Some(b),
        JsonV::Arr(v).as_array() == Some(v),
        (JsonV::Number { text: s, signed, unsigned }).as_u64() == unsigned,
        (JsonV::Number { text: s, signed, unsigned }).as_i64() == signed,
        JsonV::Str(s).as_bool() is None && JsonV::Str(s).as_u64() is None && JsonV::Str(s).as_i64() is None,
        JsonV::Bool(b).as_str() is None && JsonV::Arr(v).as_str() is None && JsonV::Null.as_str() is None,
{
}

/// A value is seen as what it is: texts by their characters, arrays item by item, objects field by
/// field, in their order.
pub proof fn law_values_as_seen(
    b: bool,
    s: String,
    v: Vec<Json>,
    f: Vec<(String, Json)>,
    signed: Option<i64>,
    unsigned: Option<u64>,
)
    ensures
        Json::Null@ == JsonV::Null,
        Json::Bool(b)@ == JsonV::Bool(b),
        (Json::Number { text: s, signed, unsigned })@ == (JsonV::Number {
            text: s@,
            signed,
            unsigned,
        }),
        Json::Str(s)@ == JsonV::Str(s@),
        Json::Arr(v)@ is Arr && Json::Arr(v)@->Arr_0.len() == v@.len(),
        forall|i: int| 0 <= i < v@.len() ==> Json::Arr(v)@->Arr_0[i] == (#[trigger] v@[i])@,
        Json::Obj(f)@ is Obj && Json::Obj(f)@->Obj_0.len() == f@.len(),
        forall|i: int|
            0 <= i < f@.len() ==> Json::Obj(f)@->Obj_0[i] == ((#[trigger] f@[i]).0@, f@[i].1@),
{
    lemma_json_views(v@);
    lemma_json_fields(f@);
    assert forall|i: int| 0 <= i < v@.len() implies Json::Arr(v)@->Arr_0[i] == (#[trigger] v@[i])@ by {
        assert(json_views(v@)[i] == json_view(v@[i]));
    }
    assert forall|i: int| 0 <= i < f@.len() implies Json::Obj(f)@->Obj_0[i] == (
        (#[trigger] f@[i]).0@,
        f@[i].1@,
    ) by {
        assert(json_fields(f@)[i] == (f@[i].0@, json_view(f@[i].1)));
    }
}

} // verus!
