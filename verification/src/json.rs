//! The part of a JSON manifest that matters: its top-level fields.

use vstd::prelude::*;

use crate::text;

verus! {

/// A field of a JSON object.
#[derive(Debug)]
pub enum JsonField {
    Str(String),
    /// An object, by its keys.
    Object(Vec<String>),
    Other,
}

/// What a [`JsonField`] holds.
pub enum JsonFieldView {
    Str(Seq<char>),
    Object(Seq<Seq<char>>),
    Other,
}

impl View for JsonField {
    type V = JsonFieldView;

    open spec fn view(&self) -> JsonFieldView {
        match self {
            JsonField::Str(s) => JsonFieldView::Str(s@),
            JsonField::Object(keys) => JsonFieldView::Object(text::texts(keys@)),
            JsonField::Other => JsonFieldView::Other,
        }
    }
}

/// What a list of fields holds.
pub open spec fn field_views(v: Seq<(String, JsonField)>) -> Seq<(Seq<char>, JsonFieldView)> {
    Seq::new(v.len(), |i: int| (v[i].0@, v[i].1@))
}

/// The field under a key: the first with it.
pub open spec fn lookup(e: Seq<(Seq<char>, JsonFieldView)>, key: Seq<char>) -> Option<JsonFieldView>
    decreases e.len(),
{
    if e.len() == 0 {
        None
    } else if e[0].0 == key {
        Some(e[0].1)
    } else {
        lookup(e.drop_first(), key)
    }
}

/// What `serde_json` makes of a text: the fields of the object it holds (none
/// where it holds something else), or nothing when it is no JSON.
pub uninterp spec fn json_fields(text: Seq<char>) -> Option<Seq<(Seq<char>, JsonFieldView)>>;

/// `serde_json::from_str` reads a JSON text. The contract names its result: the
/// fields of the top-level object, each converted to a plain value.
#[verifier::external_body]
pub(crate) fn read(text: &str) -> (r: Option<Vec<(String, JsonField)>>)
    ensures
        match r {
            Some(fields) => json_fields(text@) == Some(field_views(fields@)),
            None => json_fields(text@) is None,
        },
{
    let value: serde_json::Value = serde_json::from_str(text).ok()?;
    let fields = value.as_object().cloned().unwrap_or_default();
    Some(fields.into_iter().map(|(key, field)| (key, match field {
        serde_json::Value::String(s) => JsonField::Str(s),
        serde_json::Value::Object(o) => JsonField::Object(o.keys().cloned().collect()),
        _ => JsonField::Other,
    })).collect())
}

/// The field under a key.
pub fn get<'a>(fields: &'a Vec<(String, JsonField)>, key: &str) -> (r: Option<&'a JsonField>)
    ensures
        match r {
            Some(f) => lookup(field_views(fields@), key@) == Some(f@),
            None => lookup(field_views(fields@), key@) is None,
        },
{
    let ghost e = field_views(fields@);
    let mut i: usize = 0;
    assert(e.skip(0) =~= e);
    while i < fields.len()
        invariant
            i <= fields.len(),
            e == field_views(fields@),
            lookup(e, key@) == lookup(e.skip(i as int), key@),
        decreases fields.len() - i,
    {
        assert(e.skip(i as int)[0] == e[i as int]);
        if text::same(fields[i].0.as_str(), key) {
            return Some(&fields[i].1);
        }
        assert(e.skip(i as int).drop_first() =~= e.skip(i + 1));
        i += 1;
    }
    None
}

/// A key names the first field that has it, and nothing where no field has it.
pub proof fn law_fields_are_found(e: Seq<(Seq<char>, JsonFieldView)>, i: int, key: Seq<char>)
    ensures
        0 <= i < e.len() && (forall|j: int| 0 <= j < i ==> (#[trigger] e[j]).0 != e[i].0) ==> lookup(
            e,
            e[i].0,
        ) == Some(e[i].1),
        (forall|j: int| 0 <= j < e.len() ==> (#[trigger] e[j]).0 != key) ==> lookup(e, key) is None,
    decreases e.len(),
{
    if e.len() > 0 {
        let rest = e.drop_first();
        law_fields_are_found(rest, i - 1, key);
        if 0 < i < e.len() && (forall|j: int| 0 <= j < i ==> (#[trigger] e[j]).0 != e[i].0) {
            assert(e[0].0 != e[i].0);
            assert(rest[i - 1] == e[i]);
            assert forall|j: int| 0 <= j < i - 1 implies (#[trigger] rest[j]).0 != rest[i - 1].0 by {
                assert(rest[j] == e[j + 1]);
            }
        }
        if forall|j: int| 0 <= j < e.len() ==> (#[trigger] e[j]).0 != key {
            assert(e[0].0 != key);
            assert forall|j: int| 0 <= j < rest.len() implies (#[trigger] rest[j]).0 != key by {
                assert(rest[j] == e[j + 1]);
            }
        }
    }
}

} // verus!
