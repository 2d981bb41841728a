//! HTTP header fields: what a `HeaderMap` holds, and the calls into it.
//!
//! A map is described by the list of its fields in the order in which it hands
//! them out, names in lower case. The functions marked `external_body` are not
//! proved: each states what one function of the `http` crate does.

use hyper::header::HeaderName;
use hyper::header::HeaderValue;
use hyper::header::InvalidHeaderName;
use hyper::header::InvalidHeaderValue;
use hyper::header::ToStrError;
use hyper::HeaderMap;
use vstd::prelude::*;

use crate::text::ascii;

verus! {

/// A map with no more distinct names than this has room for a further field, as
/// [`has_room`] says.
///
/// A `HeaderMap` has at most 32768 index slots. It doubles them, and refuses a
/// field where it cannot, when three quarters are taken, or when a fifth are
/// taken and its names collide. Below a fifth of 32768 names there is room
/// whatever the names are.
pub const HEADER_NAMES_MAX: usize = 6553;

/// A list of header fields: name and value of each.
pub type Fields = Seq<(Seq<u8>, Seq<u8>)>;

/// An upper case ASCII letter as lower case, any other byte as it is.
pub open spec fn lower_byte(byte: u8) -> u8 {
    if 65 <= byte <= 90 {
        (byte + 32) as u8
    } else {
        byte
    }
}

/// A name in lower case.
pub open spec fn lower(name: Seq<u8>) -> Seq<u8> {
    name.map_values(|byte: u8| lower_byte(byte))
}

/// A letter, a digit or one of ``!#$%&'*+-.^_`|~``.
pub open spec fn is_name_byte(byte: u8) -> bool {
    ||| 48 <= byte <= 57
    ||| 65 <= byte <= 90
    ||| 94 <= byte <= 122
    ||| byte == 33
    ||| 35 <= byte <= 39
    ||| byte == 42
    ||| byte == 43
    ||| byte == 45
    ||| byte == 46
    ||| byte == 124
    ||| byte == 126
}

/// A header name: 1 to 65535 name bytes.
pub open spec fn is_header_name(name: Seq<u8>) -> bool {
    &&& 0 < name.len() <= 65535
    &&& forall|i: int| 0 <= i < name.len() ==> is_name_byte(#[trigger] name[i])
}

/// Any byte but the control characters; a tab is allowed.
pub open spec fn is_value_byte(byte: u8) -> bool {
    byte == 9 || (32 <= byte && byte != 127)
}

/// A header value: any number of value bytes.
pub open spec fn is_header_value(value: Seq<u8>) -> bool {
    forall|i: int| 0 <= i < value.len() ==> is_value_byte(#[trigger] value[i])
}

/// A printable ASCII character, a space or a tab.
pub open spec fn is_visible_byte(byte: u8) -> bool {
    byte == 9 || 32 <= byte < 127
}

/// A value that can be read as text: visible ASCII throughout.
pub open spec fn is_visible(value: Seq<u8>) -> bool {
    forall|i: int| 0 <= i < value.len() ==> is_visible_byte(#[trigger] value[i])
}

/// The value of the first field of that name.
pub open spec fn first_value(fields: Fields, name: Seq<u8>) -> Option<Seq<u8>>
    decreases fields.len(),
{
    if fields.len() == 0 {
        None
    } else if fields[0].0 == name {
        Some(fields[0].1)
    } else {
        first_value(fields.drop_first(), name)
    }
}

/// The fields of any other name.
pub open spec fn without_name(fields: Fields, name: Seq<u8>) -> Fields
    decreases fields.len(),
{
    if fields.len() == 0 {
        fields
    } else if fields[0].0 == name {
        without_name(fields.drop_first(), name)
    } else {
        seq![fields[0]] + without_name(fields.drop_first(), name)
    }
}

/// The fields after the one value of `name` has become `value`: it takes the
/// place of the first value, the further ones go; a new name comes last.
pub open spec fn with_field(fields: Fields, name: Seq<u8>, value: Seq<u8>) -> Fields
    decreases fields.len(),
{
    if fields.len() == 0 {
        seq![(name, value)]
    } else if fields[0].0 == name {
        seq![(name, value)] + without_name(fields.drop_first(), name)
    } else {
        seq![fields[0]] + with_field(fields.drop_first(), name, value)
    }
}

/// The fields after a further value of `name`: it comes after the last value
/// of that name; a new name comes last.
pub open spec fn with_further_field(fields: Fields, name: Seq<u8>, value: Seq<u8>) -> Fields
    decreases fields.len(),
{
    if fields.len() == 0 || fields.last().0 == name || !field_names(fields).contains(name) {
        fields.push((name, value))
    } else {
        with_further_field(fields.drop_last(), name, value).push(fields.last())
    }
}

/// The distinct names of the fields.
pub open spec fn field_names(fields: Fields) -> Set<Seq<u8>> {
    fields.map_values(|field: (Seq<u8>, Seq<u8>)| field.0).to_set()
}

/// Fields such that a map that holds them is sure to take a further one.
pub open spec fn has_room(fields: Fields) -> bool {
    field_names(fields).len() <= HEADER_NAMES_MAX
}

/// A byte of a name in a map: a name byte in lower case, a `"` or a NUL.
///
/// `HeaderName::from_lowercase` takes a `"`. A static name of more than 64 bytes
/// goes into a map unchecked, with a NUL for each byte that no name has.
pub open spec fn is_held_name_byte(byte: u8) -> bool {
    (is_name_byte(byte) && lower_byte(byte) == byte) || byte == 34 || byte == 0
}

/// A byte of a value in a map: a value byte, or a NUL where the value was made
/// from a name.
pub open spec fn is_held_value_byte(byte: u8) -> bool {
    is_value_byte(byte) || byte == 0
}

/// A field as a map can hold it.
pub open spec fn is_held_field(field: (Seq<u8>, Seq<u8>)) -> bool {
    &&& 0 < field.0.len() <= 65535
    &&& forall|i: int| 0 <= i < field.0.len() ==> is_held_name_byte(#[trigger] field.0[i])
    &&& forall|i: int| 0 <= i < field.1.len() ==> is_held_value_byte(#[trigger] field.1[i])
}

/// Every field is as a map can hold it.
pub open spec fn are_held_fields(fields: Fields) -> bool {
    forall|i: int| 0 <= i < fields.len() ==> is_held_field(#[trigger] fields[i])
}

/// No name occurs twice.
pub open spec fn distinct_names(fields: Fields) -> bool {
    forall|i: int, j: int|
        0 <= i < j < fields.len() ==> (#[trigger] fields[i]).0 != (#[trigger] fields[j]).0
}

/// The fields as lists of bytes, by their views.
pub open spec fn fields_of(list: Seq<(Vec<u8>, Vec<u8>)>) -> Fields {
    list.map_values(|field: (Vec<u8>, Vec<u8>)| (field.0@, field.1@))
}

/// A header name in lower case is a header name, and stays as it is.
pub proof fn lemma_lower(name: Seq<u8>)
    requires
        is_header_name(name),
    ensures
        is_header_name(lower(name)),
        lower(lower(name)) == lower(name),
{
    assert forall|i: int| 0 <= i < name.len() implies is_name_byte(#[trigger] lower(name)[i]) by {
        assert(is_name_byte(name[i]));
    }
}

/// A name is among the names where a field has it.
pub proof fn lemma_field_names(fields: Fields, name: Seq<u8>)
    ensures
        field_names(fields).contains(name) <==> exists|i: int|
            0 <= i < fields.len() && (#[trigger] fields[i]).0 == name,
        field_names(fields).finite(),
{
    let names = fields.map_values(|field: (Seq<u8>, Seq<u8>)| field.0);
    vstd::seq_lib::seq_to_set_is_finite(names);
    if exists|i: int| 0 <= i < fields.len() && (#[trigger] fields[i]).0 == name {
        let i = choose|i: int| 0 <= i < fields.len() && (#[trigger] fields[i]).0 == name;
        assert(names[i] == name);
    }
    if names.contains(name) {
        let i = choose|i: int| 0 <= i < names.len() && names[i] == name;
        assert(fields[i].0 == name);
    }
}

/// The names of a list are those of its first field and of the rest.
proof fn lemma_field_names_front(fields: Fields)
    requires
        fields.len() > 0,
    ensures
        field_names(fields) == field_names(fields.drop_first()).insert(fields[0].0),
{
    let rest = fields.drop_first();
    assert forall|name: Seq<u8>| #[trigger]
        field_names(fields).contains(name) == field_names(rest).insert(fields[0].0).contains(
            name,
        ) by {
        lemma_field_names(fields, name);
        lemma_field_names(rest, name);
        if field_names(rest).contains(name) {
            let i = choose|i: int| 0 <= i < rest.len() && (#[trigger] rest[i]).0 == name;
            assert(fields[i + 1].0 == name);
        }
        if field_names(fields).contains(name) && fields[0].0 != name {
            let i = choose|i: int| 0 <= i < fields.len() && (#[trigger] fields[i]).0 == name;
            assert(rest[i - 1].0 == name);
        }
    }
}

/// A further field adds its name.
pub proof fn lemma_field_names_push(fields: Fields, field: (Seq<u8>, Seq<u8>))
    ensures
        field_names(fields.push(field)) == field_names(fields).insert(field.0),
{
    let more = fields.push(field);
    assert forall|name: Seq<u8>| #[trigger]
        field_names(more).contains(name) == field_names(fields).insert(field.0).contains(name) by {
        lemma_field_names(more, name);
        lemma_field_names(fields, name);
        assert(more[fields.len() as int] == field);
        if field_names(fields).contains(name) {
            let i = choose|i: int| 0 <= i < fields.len() && (#[trigger] fields[i]).0 == name;
            assert(more[i].0 == name);
        }
        if field_names(more).contains(name) && name != field.0 {
            let i = choose|i: int| 0 <= i < more.len() && (#[trigger] more[i]).0 == name;
            assert(fields[i].0 == name);
        }
    }
}

/// What is left without a name: no field has it, every other field stays.
proof fn lemma_without_name(fields: Fields, name: Seq<u8>)
    ensures
        field_names(without_name(fields, name)) == field_names(fields).remove(name),
        forall|other: Seq<u8>|
            other != name ==> #[trigger] first_value(without_name(fields, name), other)
                == first_value(fields, other),
        distinct_names(fields) ==> distinct_names(without_name(fields, name)),
    decreases fields.len(),
{
    let left = without_name(fields, name);
    if fields.len() == 0 {
        assert(left == fields);
        assert(field_names(fields) == Set::<Seq<u8>>::empty());
        assert(field_names(fields).remove(name) == Set::<Seq<u8>>::empty());
    } else {
        let rest = fields.drop_first();
        let left_rest = without_name(rest, name);
        lemma_without_name(rest, name);
        lemma_field_names_front(fields);
        if fields[0].0 != name {
            assert(left.drop_first() == left_rest);
            lemma_field_names_front(left);
            assert(field_names(left) == field_names(fields).remove(name));
            if distinct_names(fields) {
                assert(distinct_names(rest)) by {
                    assert forall|i: int, j: int|
                        0 <= i < j < rest.len() implies (#[trigger] rest[i]).0 != (
                    #[trigger] rest[j]).0 by {
                        assert(fields[i + 1].0 != fields[j + 1].0);
                    }
                }
                assert forall|i: int, j: int|
                    0 <= i < j < left.len() implies (#[trigger] left[i]).0 != (
                #[trigger] left[j]).0 by {
                    assert(left[j] == left_rest[j - 1]);
                    if i == 0 {
                        lemma_field_names(left_rest, left_rest[j - 1].0);
                        lemma_field_names(rest, left_rest[j - 1].0);
                        let k = choose|k: int|
                            0 <= k < rest.len() && (#[trigger] rest[k]).0 == left_rest[j - 1].0;
                        assert(fields[k + 1].0 != fields[0].0);
                    } else {
                        assert(left[i] == left_rest[i - 1]);
                    }
                }
            }
        } else {
            assert(field_names(left) == field_names(fields).remove(name));
            if distinct_names(fields) {
                assert forall|i: int, j: int|
                    0 <= i < j < rest.len() implies (#[trigger] rest[i]).0 != (
                #[trigger] rest[j]).0 by {
                    assert(fields[i + 1].0 != fields[j + 1].0);
                }
            }
        }
        assert forall|other: Seq<u8>| other != name implies #[trigger] first_value(left, other)
            == first_value(fields, other) by {
            assert(first_value(left_rest, other) == first_value(rest, other));
        }
    }
}

/// Setting a field: its name is among the names, it has the one value, and the
/// other names keep theirs.
pub proof fn lemma_with_field(fields: Fields, name: Seq<u8>, value: Seq<u8>)
    ensures
        field_names(with_field(fields, name, value)) == field_names(fields).insert(name),
        first_value(with_field(fields, name, value), name) == Some(value),
        forall|other: Seq<u8>|
            other != name ==> #[trigger] first_value(with_field(fields, name, value), other)
                == first_value(fields, other),
        distinct_names(fields) ==> distinct_names(with_field(fields, name, value)),
    decreases fields.len(),
{
    let set = with_field(fields, name, value);
    if fields.len() == 0 {
        assert(set.drop_first() == fields);
        lemma_field_names_front(set);
    } else {
        let rest = fields.drop_first();
        lemma_field_names_front(fields);
        lemma_field_names_front(set);
        if distinct_names(fields) {
            assert forall|i: int, j: int|
                0 <= i < j < rest.len() implies (#[trigger] rest[i]).0 != (
            #[trigger] rest[j]).0 by {
                assert(fields[i + 1].0 != fields[j + 1].0);
            }
        }
        if fields[0].0 == name {
            lemma_without_name(rest, name);
            let set_rest = without_name(rest, name);
            assert(set.drop_first() == set_rest);
            assert(field_names(set) == field_names(fields).insert(name));
            assert forall|other: Seq<u8>| other != name implies #[trigger] first_value(set, other)
                == first_value(fields, other) by {
                assert(first_value(set_rest, other) == first_value(rest, other));
            }
            if distinct_names(fields) {
                assert forall|i: int, j: int|
                    0 <= i < j < set.len() implies (#[trigger] set[i]).0 != (
                #[trigger] set[j]).0 by {
                    assert(set[j] == set_rest[j - 1]);
                    if i == 0 {
                        lemma_field_names(set_rest, set_rest[j - 1].0);
                    } else {
                        assert(set[i] == set_rest[i - 1]);
                    }
                }
            }
        } else {
            lemma_with_field(rest, name, value);
            let set_rest = with_field(rest, name, value);
            assert(set.drop_first() == set_rest);
            assert(field_names(set) == field_names(fields).insert(name));
            assert forall|other: Seq<u8>| other != name implies #[trigger] first_value(set, other)
                == first_value(fields, other) by {
                assert(first_value(set_rest, other) == first_value(rest, other));
            }
            if distinct_names(fields) {
                assert forall|i: int, j: int|
                    0 <= i < j < set.len() implies (#[trigger] set[i]).0 != (
                #[trigger] set[j]).0 by {
                    assert(set[j] == set_rest[j - 1]);
                    if i == 0 {
                        lemma_field_names(set_rest, set_rest[j - 1].0);
                        lemma_field_names(rest, set_rest[j - 1].0);
                        if field_names(rest).contains(set_rest[j - 1].0) {
                            let k = choose|k: int|
                                0 <= k < rest.len() && (#[trigger] rest[k]).0 == set_rest[j - 1].0;
                            assert(fields[k + 1].0 != fields[0].0);
                        }
                    } else {
                        assert(set[i] == set_rest[i - 1]);
                    }
                }
            }
        }
    }
}

#[verifier::external_type_specification]
#[verifier::external_body]
#[verifier::reject_recursive_types(T)]
pub struct ExHeaderMap<T>(HeaderMap<T>);

#[verifier::external_type_specification]
#[verifier::external_body]
pub struct ExHeaderValue(HeaderValue);

#[verifier::external_type_specification]
#[verifier::external_body]
pub struct ExInvalidHeaderName(InvalidHeaderName);

#[verifier::external_type_specification]
#[verifier::external_body]
pub struct ExInvalidHeaderValue(InvalidHeaderValue);

#[verifier::external_type_specification]
#[verifier::external_body]
pub struct ExToStrError(ToStrError);

/// The fields that a map holds, in the order of its iterators: name by name,
/// each with its values in the order in which they came.
pub uninterp spec fn header_fields(map: HeaderMap<HeaderValue>) -> Seq<(Seq<u8>, Seq<u8>)>;

/// `HeaderMap::new` gives a map without fields.
#[verifier::external_body]
pub(crate) fn new_headers() -> (map: HeaderMap<HeaderValue>)
    ensures
        header_fields(map) == Seq::<(Seq<u8>, Seq<u8>)>::empty(),
{
    HeaderMap::new()
}

/// `HeaderMap::get` finds the first value of a name, which it takes in either
/// case, and `HeaderValue::to_str` reads it: a value of visible ASCII is text,
/// any other is an error.
#[verifier::external_body]
pub(crate) fn header_text(map: &HeaderMap<HeaderValue>, name: &str) -> (text: Option<
    Result<String, ToStrError>,
>)
    requires
        name.is_ascii(),
        is_header_name(ascii(name@)),
    ensures
        match text {
            Some(Ok(text)) => {
                &&& text.is_ascii()
                &&& is_visible(ascii(text@))
                &&& first_value(header_fields(*map), lower(ascii(name@))) == Some(ascii(text@))
            },
            Some(Err(_)) => first_value(header_fields(*map), lower(ascii(name@))) matches Some(
                value,
            ) && !is_visible(value),
            None => first_value(header_fields(*map), lower(ascii(name@))) is None,
        },
{
    map.get(name).map(|value| value.to_str().map(|text| text.to_string()))
}

/// `HeaderMap::try_insert` makes `value` the one value of a name, where the map
/// has room. Whether it has where [`has_room`] does not say so depends on how
/// the names hash, and is left open.
#[verifier::external_body]
pub(crate) fn insert_header(map: &mut HeaderMap<HeaderValue>, name: &[u8], value: &[u8]) -> (done:
    bool)
    requires
        is_header_name(name@),
        is_header_value(value@),
    ensures
        has_room(header_fields(*old(map))) ==> done,
        done ==> header_fields(*final(map)) == with_field(
            header_fields(*old(map)),
            lower(name@),
            value@,
        ),
{
    let name = HeaderName::from_bytes(name).unwrap();
    map.try_insert(name, HeaderValue::from_bytes(value).unwrap()).is_ok()
}

/// `HeaderMap::try_append` adds a further value of a name, where the map has
/// room. Whether it has where [`has_room`] does not say so depends on how the
/// names hash, and is left open.
#[verifier::external_body]
pub(crate) fn append_header(map: &mut HeaderMap<HeaderValue>, name: &[u8], value: &[u8]) -> (done:
    bool)
    requires
        is_header_name(name@),
        is_header_value(value@),
    ensures
        has_room(header_fields(*old(map))) ==> done,
        done ==> header_fields(*final(map)) == with_further_field(
            header_fields(*old(map)),
            lower(name@),
            value@,
        ),
{
    let name = HeaderName::from_bytes(name).unwrap();
    map.try_append(name, HeaderValue::from_bytes(value).unwrap()).is_ok()
}

/// `HeaderMap::iter` hands out every field. Each is made of the bytes that the
/// safe constructors of `HeaderName` and `HeaderValue` let through.
#[verifier::external_body]
pub(crate) fn list_headers(map: &HeaderMap<HeaderValue>) -> (list: Vec<(Vec<u8>, Vec<u8>)>)
    ensures
        fields_of(list@) == header_fields(*map),
        are_held_fields(fields_of(list@)),
{
    map.iter().map(|(name, value)| (name.as_str().into(), value.as_bytes().to_vec())).collect()
}

/// `HeaderMap::into_iter` hands out every field in the same order, with the
/// name at the first of its values only.
#[verifier::external_body]
pub(crate) fn take_headers(map: HeaderMap<HeaderValue>) -> (list: Vec<(Option<Vec<u8>>, Vec<u8>)>)
    ensures
        list@.len() == header_fields(map).len(),
        forall|i: int|
            #![trigger list@[i]]
            0 <= i < list@.len() ==> {
                &&& list@[i].1@ == header_fields(map)[i].1
                &&& list@[i].0 is Some <==> (i == 0 || header_fields(map)[i - 1].0
                    != header_fields(map)[i].0)
                &&& list@[i].0 matches Some(name) ==> name@ == header_fields(map)[i].0
            },
{
    map.into_iter().map(
        |(name, value)| (name.map(|name| name.as_str().into()), value.as_bytes().to_vec()),
    ).collect()
}

/// `HeaderName::from_bytes` accepts the header names and gives them in lower
/// case.
#[verifier::external_body]
pub(crate) fn header_name(bytes: &[u8]) -> (name: Result<Vec<u8>, InvalidHeaderName>)
    ensures
        name is Ok <==> is_header_name(bytes@),
        name matches Ok(name) ==> name@ == lower(bytes@),
{
    HeaderName::from_bytes(bytes).map(|name| name.as_str().into())
}

/// `HeaderValue::from_bytes` accepts the header values and keeps their bytes.
#[verifier::external_body]
pub(crate) fn header_value(bytes: &[u8]) -> (value: Result<Vec<u8>, InvalidHeaderValue>)
    ensures
        value is Ok <==> is_header_value(bytes@),
        value matches Ok(value) ==> value@ == bytes@,
{
    HeaderValue::from_bytes(bytes).map(|value| value.as_bytes().to_vec())
}

/// A map with at most 6553 fields has room.
pub proof fn law_few_fields_have_room(fields: Fields)
    requires
        fields.len() <= 6553,
    ensures
        has_room(fields),
{
    fields.map_values(|field: (Seq<u8>, Seq<u8>)| field.0).lemma_cardinality_of_set();
}

proof fn lemma_without_name_twice(fields: Fields, name: Seq<u8>)
    ensures
        without_name(without_name(fields, name), name) == without_name(fields, name),
    decreases fields.len(),
{
    if fields.len() > 0 {
        let rest = fields.drop_first();
        lemma_without_name_twice(rest, name);
        if fields[0].0 != name {
            let left = without_name(fields, name);
            assert(left.drop_first() == without_name(rest, name));
        }
    }
}

/// Setting a field leaves the fields of every other name as they were, all of
/// them, in their order.
pub proof fn law_other_fields_stay(fields: Fields, name: Seq<u8>, value: Seq<u8>)
    ensures
        without_name(with_field(fields, name, value), name) == without_name(fields, name),
    decreases fields.len(),
{
    let set = with_field(fields, name, value);
    if fields.len() == 0 {
        assert(set.drop_first() == fields);
    } else {
        let rest = fields.drop_first();
        if fields[0].0 == name {
            assert(set.drop_first() == without_name(rest, name));
            lemma_without_name_twice(rest, name);
        } else {
            assert(set.drop_first() == with_field(rest, name, value));
            law_other_fields_stay(rest, name, value);
        }
    }
}

} // verus!
