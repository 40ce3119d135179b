//! A JSON document as the Docs API returns it, and whether it holds images.

use vstd::prelude::*;
use crate::text::same_text;

verus! {

/// A JSON value. Numbers keep their text, as nothing here reads them.
pub enum JsonValue {
    Null,
    Bool(bool),
    Number(String),
    Str(String),
    Array(Vec<JsonValue>),
    Object(Vec<(String, JsonValue)>),
}

/// The member named `key`: the first one where the name occurs twice.
pub open spec fn member_value(members: Seq<(String, JsonValue)>, key: Seq<char>) -> Option<JsonValue>
    decreases members.len(),
{
    if members.len() == 0 {
        None
    } else if members[0].0@ == key {
        Some(members[0].1)
    } else {
        member_value(members.drop_first(), key)
    }
}

/// What `Value::get(key)` gives: the member `key` of an object, else nothing.
pub open spec fn json_get(v: JsonValue, key: Seq<char>) -> Option<JsonValue> {
    match v {
        JsonValue::Object(members) => member_value(members@, key),
        _ => None,
    }
}

/// The value reached from `v` through the object members named by `keys`.
pub open spec fn json_path(v: JsonValue, keys: Seq<Seq<char>>) -> Option<JsonValue>
    decreases keys.len(),
{
    if keys.len() == 0 {
        Some(v)
    } else {
        match json_get(v, keys[0]) {
            Some(c) => json_path(c, keys.drop_first()),
            None => None,
        }
    }
}

pub const INLINE_OBJECTS: &'static str = "inlineObjects";
pub const POSITIONED_OBJECTS: &'static str = "positionedObjects";
pub const INLINE_OBJECT_PROPERTIES: &'static str = "inlineObjectProperties";
pub const POSITIONED_OBJECT_PROPERTIES: &'static str = "positionedObjectProperties";
pub const EMBEDDED_OBJECT: &'static str = "embeddedObject";
pub const IMAGE_PROPERTIES: &'static str = "imageProperties";

/// The path `/<properties>/embeddedObject/imageProperties`.
pub open spec fn image_path(properties: Seq<char>) -> Seq<Seq<char>> {
    seq![properties, EMBEDDED_OBJECT@, IMAGE_PROPERTIES@]
}

/// An inline or positioned object of a document that embeds an image.
pub open spec fn is_image_object(o: JsonValue) -> bool {
    json_path(o, image_path(INLINE_OBJECT_PROPERTIES@)) is Some
        || json_path(o, image_path(POSITIONED_OBJECT_PROPERTIES@)) is Some
}

/// One of the member values embeds an image.
pub open spec fn some_member_is_image(members: Seq<(String, JsonValue)>) -> bool {
    exists|i: int| 0 <= i < members.len() && #[trigger] is_image_object(members[i].1)
}

/// `v` is an object one of whose member values embeds an image.
pub open spec fn object_map_has_image(v: Option<JsonValue>) -> bool {
    match v {
        Some(JsonValue::Object(members)) => some_member_is_image(members@),
        _ => false,
    }
}

/// A document whose inline or positioned objects embed an image.
pub open spec fn document_has_image(doc: JsonValue) -> bool {
    object_map_has_image(json_get(doc, INLINE_OBJECTS@)) || object_map_has_image(json_get(doc, POSITIONED_OBJECTS@))
}

fn member_lookup<'a>(members: &'a Vec<(String, JsonValue)>, key: &str) -> (r: Option<&'a JsonValue>)
    ensures
        match r {
            Some(x) => member_value(members@, key@) == Some(*x),
            None => member_value(members@, key@) is None,
        },
{
    let mut i: usize = 0;
    assert(members@.subrange(0, members@.len() as int) =~= members@);
    while i < members.len()
        invariant
            i <= members@.len(),
            member_value(members@, key@) == member_value(members@.subrange(i as int, members@.len() as int), key@),
        decreases members@.len() - i,
    {
        let ghost rest = members@.subrange(i as int, members@.len() as int);
        assert(rest.drop_first() =~= members@.subrange(i + 1, members@.len() as int));
        assert(rest[0] == members@[i as int]);
        if same_text(members[i].0.as_str(), key) {
            return Some(&members[i].1);
        }
        i = i + 1;
    }
    None
}

/// `Value::get(key)`: the member `key` of an object, else nothing.
pub fn json_member<'a>(v: &'a JsonValue, key: &str) -> (r: Option<&'a JsonValue>)
    ensures
        match r {
            Some(x) => json_get(*v, key@) == Some(*x),
            None => json_get(*v, key@) is None,
        },
{
    match v {
        JsonValue::Object(members) => member_lookup(members, key),
        _ => None,
    }
}

/// Whether `/<properties>/embeddedObject/imageProperties` leads somewhere in `o`.
fn has_image_path(o: &JsonValue, properties: &str) -> (b: bool)
    ensures
        b == (json_path(*o, image_path(properties@)) is Some),
{
    let ghost path = image_path(properties@);
    assert(path.drop_first().drop_first().drop_first().len() == 0);
    proof {
        reveal_with_fuel(json_path, 4);
    }
    match json_member(o, properties) {
        None => false,
        Some(a) => match json_member(a, EMBEDDED_OBJECT) {
            None => {
                assert(path.drop_first()[0] == EMBEDDED_OBJECT@);
                false
            },
            Some(b) => {
                assert(path.drop_first()[0] == EMBEDDED_OBJECT@);
                assert(path.drop_first().drop_first()[0] == IMAGE_PROPERTIES@);
                json_member(b, IMAGE_PROPERTIES).is_some()
            },
        },
    }
}

/// Whether `value` is an object one of whose member values has image
/// properties under `inlineObjectProperties` or `positionedObjectProperties`.
pub fn object_map_contains_image(value: Option<&JsonValue>) -> (b: bool)
    ensures
        b == object_map_has_image(match value { Some(v) => Some(*v), None => None }),
{
    match value {
        Some(JsonValue::Object(members)) => {
            let ghost expected = object_map_has_image(match value { Some(v) => Some(*v), None => None });
            assert(expected == some_member_is_image(members@));
            let mut i: usize = 0;
            while i < members.len()
                invariant
                    i <= members@.len(),
                    expected == some_member_is_image(members@),
                    expected == object_map_has_image(match value { Some(v) => Some(*v), None => None }),
                    forall|k: int| 0 <= k < i ==> !#[trigger] is_image_object(members@[k].1),
                decreases members@.len() - i,
            {
                if has_image_path(&members[i].1, INLINE_OBJECT_PROPERTIES)
                    || has_image_path(&members[i].1, POSITIONED_OBJECT_PROPERTIES) {
                    assert(is_image_object(members@[i as int].1));
                    assert(some_member_is_image(members@));
                    return true;
                }
                i = i + 1;
            }
            false
        },
        _ => false,
    }
}

/// Whether a document fetched with the image-related fields embeds an image
/// among its inline or positioned objects.
pub fn document_contains_images(doc: &JsonValue) -> (b: bool)
    ensures
        b == document_has_image(*doc),
{
    object_map_contains_image(json_member(doc, INLINE_OBJECTS))
        || object_map_contains_image(json_member(doc, POSITIONED_OBJECTS))
}

} // verus!
