//! JSON values, as far as the library reads and writes them.

use vstd::prelude::*;
use vstd::string::*;

use crate::text;

verus! {

/// A JSON value.
#[derive(Debug, PartialEq, Eq)]
pub enum Json {
    /// `null`.
    Null,
    /// `true` or `false`.
    Bool(bool),
    /// A number, with its value when it is whole, not negative and fits in 64 bits.
    Number(Option<u64>),
    /// A string.
    Text(String),
    /// An array.
    List(Vec<Json>),
    /// An object: each key with its value.
    Object(Vec<(String, Json)>),
}

/// What a [`Json`] holds.
pub enum JsonView {
    Null,
    Bool(bool),
    Number(Option<u64>),
    Text(Seq<char>),
    List(Seq<JsonView>),
    Object(Seq<(Seq<char>, JsonView)>),
}

/// What a JSON value holds.
pub open spec fn json_view(value: Json) -> JsonView
    decreases value,
{
    match value {
        Json::Null => JsonView::Null,
        Json::Bool(b) => JsonView::Bool(b),
        Json::Number(n) => JsonView::Number(n),
        Json::Text(t) => JsonView::Text(t@),
        Json::List(items) => JsonView::List(
            Seq::new(
                items@.len(),
                |i: int|
                    if 0 <= i < items@.len() {
                        json_view(items@[i])
                    } else {
                        JsonView::Null
                    },
            ),
        ),
        Json::Object(fields) => JsonView::Object(
            Seq::new(
                fields@.len(),
                |i: int|
                    if 0 <= i < fields@.len() {
                        (fields@[i].0@, json_view(fields@[i].1))
                    } else {
                        (Seq::<char>::empty(), JsonView::Null)
                    },
            ),
        ),
    }
}

impl View for Json {
    type V = JsonView;

    open spec fn view(&self) -> JsonView {
        json_view(*self)
    }
}

/// What each value of a list holds.
pub open spec fn json_views(items: Seq<Json>) -> Seq<JsonView> {
    items.map_values(|item: Json| item@)
}

/// What each field of an object holds.
pub open spec fn field_views(fields: Seq<(String, Json)>) -> Seq<(Seq<char>, JsonView)> {
    fields.map_values(|field: (String, Json)| (field.0@, field.1@))
}

/// What an optional value holds, when there is one.
pub open spec fn option_view(value: Option<Json>) -> Option<JsonView> {
    match value {
        Some(value) => Some(value@),
        None => None,
    }
}

/// What a borrowed value holds, when there is one.
pub open spec fn borrowed_view(value: Option<&Json>) -> Option<JsonView> {
    match value {
        Some(value) => Some(value@),
        None => None,
    }
}

/// An array holds what its values hold, and an object what its fields hold.
pub broadcast proof fn lemma_json_view(value: Json)
    ensures
        value matches Json::List(items) ==> #[trigger] json_view(value) == JsonView::List(json_views(items@)),
        value matches Json::Object(fields) ==> json_view(value) == JsonView::Object(field_views(fields@)),
{
    match value {
        Json::List(items) => {
            assert(json_view(value)->List_0 =~= json_views(items@));
        },
        Json::Object(fields) => {
            assert(json_view(value)->Object_0 =~= field_views(fields@));
        },
        _ => {},
    }
}

impl JsonView {
    /// The text of a string value.
    pub open spec fn text(self) -> Option<Seq<char>> {
        match self {
            JsonView::Text(t) => Some(t),
            _ => None,
        }
    }

    /// The values of an array.
    pub open spec fn list(self) -> Option<Seq<JsonView>> {
        match self {
            JsonView::List(items) => Some(items),
            _ => None,
        }
    }

    /// The value at a place of an array. Any other value has none.
    pub open spec fn item(self, at: int) -> Option<JsonView> {
        match self {
            JsonView::List(items) => if 0 <= at < items.len() {
                Some(items[at])
            } else {
                None
            },
            _ => None,
        }
    }

    /// The value of a field of an object. Any other value has none.
    pub open spec fn field(self, key: Seq<char>) -> Option<JsonView> {
        match self {
            JsonView::Object(fields) => first_field(fields, key),
            _ => None,
        }
    }

    /// The value of a number that is whole, not negative and fits in 64 bits.
    pub open spec fn number(self) -> Option<u64> {
        match self {
            JsonView::Number(n) => n,
            _ => None,
        }
    }
}

/// The value of the first field with this key.
pub open spec fn first_field(fields: Seq<(Seq<char>, JsonView)>, key: Seq<char>) -> Option<JsonView>
    decreases fields.len(),
{
    if fields.len() == 0 {
        None
    } else if fields[0].0 == key {
        Some(fields[0].1)
    } else {
        first_field(fields.drop_first(), key)
    }
}

impl Json {
    /// Returns the text of a string value.
    pub fn as_text(&self) -> (t: Option<&str>)
        ensures
            t is Some <==> self@.text() is Some,
            t matches Some(t) ==> self@.text() == Some(t@),
    {
        match self {
            Json::Text(t) => Some(t.as_str()),
            _ => None,
        }
    }

    /// Returns the values of an array.
    pub fn as_list(&self) -> (items: Option<&Vec<Json>>)
        ensures
            items is Some <==> self@.list() is Some,
            items matches Some(items) ==> self@.list() == Some(json_views(items@)),
    {
        broadcast use lemma_json_view;

        match self {
            Json::List(items) => Some(items),
            _ => None,
        }
    }

    /// Returns the value of a number that is whole, not negative and fits in 64 bits.
    pub fn as_number(&self) -> (n: Option<u64>)
        ensures
            n == self@.number(),
    {
        match self {
            Json::Number(n) => *n,
            _ => None,
        }
    }

    /// Returns the value at a place of an array, or `None` for any other value.
    pub fn item(&self, at: usize) -> (value: Option<&Json>)
        ensures
            borrowed_view(value) == self@.item(at as int),
    {
        broadcast use lemma_json_view;

        match self {
            Json::List(items) => if at < items.len() {
                Some(&items[at])
            } else {
                None
            },
            _ => None,
        }
    }

    /// Returns the value of a field of an object, or `None` for any other value.
    pub fn field(&self, key: &str) -> (value: Option<&Json>)
        ensures
            borrowed_view(value) == self@.field(key@),
    {
        broadcast use lemma_json_view;

        match self {
            Json::Object(fields) => {
                let ghost all = field_views(fields@);
                let mut i: usize = 0;
                assert(all.skip(0) =~= all);
                while i < fields.len()
                    invariant
                        i <= fields@.len(),
                        all == field_views(fields@),
                        self@ == JsonView::Object(all),
                        first_field(all, key@) == first_field(all.skip(i as int), key@),
                    decreases fields@.len() - i,
                {
                    assert(all[i as int] == (fields@[i as int].0@, fields@[i as int].1@));
                    if text::same_text(fields[i].0.as_str(), key) {
                        return Some(&fields[i].1);
                    }
                    assert(all.skip(i as int).drop_first() =~= all.skip(i + 1));
                    i += 1;
                }
                None
            },
            _ => None,
        }
    }
}

impl Clone for Json {
    fn clone(&self) -> (copy: Self)
        ensures
            copy@ == self@,
        decreases self,
    {
        broadcast use lemma_json_view;

        match self {
            Json::Null => Json::Null,
            Json::Bool(b) => Json::Bool(*b),
            Json::Number(n) => Json::Number(*n),
            Json::Text(t) => Json::Text(t.clone()),
            Json::List(items) => {
                let mut copies: Vec<Json> = Vec::new();
                let mut i: usize = 0;
                while i < items.len()
                    invariant
                        i <= items@.len(),
                        *self == Json::List(*items),
                        json_views(copies@) == json_views(items@).take(i as int),
                    decreases items@.len() - i,
                {
                    let ghost before = json_views(copies@);
                    assert(decreases_to!(*self => self->List_0@[i as int]));
                    copies.push(items[i].clone());
                    assert(json_views(copies@) =~= before.push(items@[i as int]@));
                    assert(json_views(items@).take(i + 1) =~= before.push(items@[i as int]@));
                    i += 1;
                }
                assert(json_views(copies@) =~= json_views(items@));
                Json::List(copies)
            },
            Json::Object(fields) => {
                let mut copies: Vec<(String, Json)> = Vec::new();
                let mut i: usize = 0;
                while i < fields.len()
                    invariant
                        i <= fields@.len(),
                        *self == Json::Object(*fields),
                        field_views(copies@) == field_views(fields@).take(i as int),
                    decreases fields@.len() - i,
                {
                    let ghost before = field_views(copies@);
                    let field = &fields[i];
                    assert(decreases_to!(*self => self->Object_0@[i as int].1));
                    copies.push((field.0.clone(), field.1.clone()));
                    assert(field_views(copies@) =~= before.push((field.0@, field.1@)));
                    assert(field_views(fields@).take(i + 1) =~= before.push((field.0@, field.1@)));
                    i += 1;
                }
                assert(field_views(copies@) =~= field_views(fields@));
                Json::Object(copies)
            },
        }
    }
}

/// A JSON value is seen whole: an array item by item, and an object field by field, each
/// with its name.
pub proof fn law_value_is_seen_whole(value: Json, i: int)
    ensures
        value is Null <==> value@ is Null,
        value matches Json::Bool(b) ==> value@ == JsonView::Bool(b),
        value matches Json::Number(n) ==> value@ == JsonView::Number(n),
        value matches Json::Text(t) ==> value@ == JsonView::Text(t@),
        value matches Json::List(items) ==> value@ is List && value@->List_0.len() == items@.len() && (0 <= i
            < items@.len() ==> value@->List_0[i] == items@[i]@),
        value matches Json::Object(fields) ==> value@ is Object && value@->Object_0.len() == fields@.len() && (
        0 <= i < fields@.len() ==> value@->Object_0[i].0 == fields@[i].0@ && value@->Object_0[i].1
            == fields@[i].1@),
{
    broadcast use lemma_json_view;

}

/// The value of a field is that of the first field with its name, and there is none where
/// no field has the name.
pub proof fn law_first_field(fields: Seq<(Seq<char>, JsonView)>, key: Seq<char>, k: int)
    requires
        0 <= k <= fields.len(),
        forall|j: int| 0 <= j < k ==> (#[trigger] fields[j]).0 != key,
        k < fields.len() ==> fields[k].0 == key,
    ensures
        k < fields.len() ==> JsonView::Object(fields).field(key) == Some(fields[k].1),
        k == fields.len() ==> JsonView::Object(fields).field(key) is None,
    decreases fields.len(),
{
    if k > 0 {
        let rest = fields.drop_first();
        assert forall|j: int| 0 <= j < k - 1 implies (#[trigger] rest[j]).0 != key by {
            assert(rest[j] == fields[j + 1]);
        }
        if k < fields.len() {
            assert(rest[k - 1] == fields[k]);
        }
        assert(fields[0].0 != key);
        law_first_field(rest, key, k - 1);
    }
}

/// A field with a name has a first one before it, or is the first.
pub proof fn lemma_first_field_at(fields: Seq<(Seq<char>, JsonView)>, key: Seq<char>, at: int)
    requires
        0 <= at < fields.len(),
        fields[at].0 == key,
    ensures
        exists|k: int|
            0 <= k < fields.len() && fields[k].0 == key && forall|m: int|
                0 <= m < k ==> (#[trigger] fields[m]).0 != key,
    decreases at,
{
    if exists|j: int| 0 <= j < at && (#[trigger] fields[j]).0 == key {
        let j = choose|j: int| 0 <= j < at && (#[trigger] fields[j]).0 == key;
        lemma_first_field_at(fields, key, j);
    }
}

/// Only an array has items, and it has those it holds; only an object has fields, only a
/// string a text and only a number a number.
pub proof fn law_what_a_value_gives(value: JsonView, at: int)
    ensures
        value.item(at) == match value {
            JsonView::List(items) if 0 <= at < items.len() => Some(items[at]),
            _ => None,
        },
        value is List <==> value.list() is Some,
        value matches JsonView::List(items) ==> value.list() == Some(items),
        value is Text <==> value.text() is Some,
        value matches JsonView::Text(t) ==> value.text() == Some(t),
        value matches JsonView::Number(n) ==> value.number() == n,
        !(value is Number) ==> value.number() is None,
        !(value is Object) ==> forall|key: Seq<char>| #[trigger] value.field(key) is None,
{
}

/// A value that may be missing is seen as it is, or as missing.
pub proof fn law_missing_value_is_seen(value: Option<Json>, borrowed: Option<&Json>)
    ensures
        value is None ==> option_view(value) is None,
        value matches Some(inner) ==> option_view(value) == Some(inner@),
        borrowed is None ==> borrowed_view(borrowed) is None,
        borrowed matches Some(inner) ==> borrowed_view(borrowed) == Some(inner@),
{
}

/// A list of values is seen value by value, and a list of fields field by field.
pub proof fn law_lists_are_seen_whole(items: Seq<Json>, fields: Seq<(String, Json)>, i: int)
    ensures
        json_views(items).len() == items.len(),
        0 <= i < items.len() ==> json_views(items)[i] == items[i]@,
        field_views(fields).len() == fields.len(),
        0 <= i < fields.len() ==> field_views(fields)[i].0 == fields[i].0@ && field_views(fields)[i].1
            == fields[i].1@,
{
}

} // verus!
