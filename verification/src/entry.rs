//! The bytes of a cached response.
//!
//! An entry holds the status code, the header fields and the body of a
//! response: a line with the three digits of the status, a line `name:value`
//! for each field, a line `-`, then the body. Every line ends in a line feed.

use hyper::header::HeaderValue;
use hyper::HeaderMap;
use vstd::prelude::*;
use vstd::slice::slice_subrange;

use crate::headers::{
    are_held_fields, distinct_names, field_names, fields_of, first_value, has_room, header_fields,
    header_name, header_text, header_value, insert_header, is_header_name, is_header_value,
    is_held_field, is_held_name_byte, is_held_value_byte, is_name_byte, is_value_byte, is_visible,
    is_visible_byte, law_few_fields_have_room, lemma_field_names, lemma_field_names_push,
    lemma_lower, lemma_with_field, list_headers, lower, lower_byte, new_headers, with_field,
    without_name, Fields, HEADER_NAMES_MAX,
};
use crate::status::{
    is_status, is_status_text, law_status_text_reads_back, lemma_status_digits, status_digits,
    status_from_bytes, status_of_text, status_text,
};
use crate::text::{
    all_digits, ascii, ascii_bytes, find_byte, lemma_position, lemma_position_is, parse_usize,
    position, same_bytes, unsigned_part, usize_of_text,
};

verus! {

/// Tells a client where its response came from: `hit`, `miss` or `skip`.
pub const CACHE_HEADER: &'static str = "X-CRAP-CACHE";

/// The status line and header fields of a response.
pub struct ResponseHead {
    pub status: u16,
    pub headers: HeaderMap<HeaderValue>,
}

/// What an entry says: a status code, header fields and a body.
pub struct Entry {
    pub status: u16,
    pub fields: Fields,
    pub body: Seq<u8>,
}

/// The name of [`CACHE_HEADER`] as a map holds it.
pub open spec fn cache_header_name() -> Seq<u8> {
    ascii("x-crap-cache"@)
}

/// A field that an entry records. The two others speak of one transfer of the
/// response, not of the response.
pub open spec fn is_stored_name(name: Seq<u8>) -> bool {
    name != ascii("content-length"@) && name != ascii("connection"@)
}

/// The fields that an entry records, in their order.
pub open spec fn stored_fields(fields: Fields) -> Fields
    decreases fields.len(),
{
    if fields.len() == 0 {
        fields
    } else if is_stored_name(fields.last().0) {
        stored_fields(fields.drop_last()).push(fields.last())
    } else {
        stored_fields(fields.drop_last())
    }
}

/// One field as a line.
pub open spec fn encode_field(field: (Seq<u8>, Seq<u8>)) -> Seq<u8> {
    field.0 + seq![58u8] + field.1 + seq![10u8]
}

/// Fields as lines.
pub open spec fn encode_fields(fields: Fields) -> Seq<u8>
    decreases fields.len(),
{
    if fields.len() == 0 {
        Seq::empty()
    } else {
        encode_fields(fields.drop_last()) + encode_field(fields.last())
    }
}

/// The bytes of an entry up to the body.
pub open spec fn encode_head(status: u16, fields: Fields) -> Seq<u8> {
    status_digits(status) + seq![10u8] + encode_fields(stored_fields(fields)) + seq![45u8, 10u8]
}

/// A line `-`, with its line feed, begins at index `at`.
pub open spec fn is_end_mark_at(bytes: Seq<u8>, at: int) -> bool {
    &&& 0 <= at < bytes.len() - 1
    &&& at == 0 || bytes[at - 1] == 10
    &&& bytes[at] == 45
    &&& bytes[at + 1] == 10
}

/// The body size that a response announces: none is zero, and one that is not
/// a number is no size.
pub open spec fn announced_size(fields: Fields) -> Option<usize> {
    match first_value(fields, ascii("content-length"@)) {
        None => Some(0),
        Some(value) => if is_visible(value) {
            usize_of_text(value)
        } else {
            None
        },
    }
}

/// A head that an entry can be made for: its announced size is a number, and
/// there can be room for a body of that size.
pub open spec fn is_encodable(head: ResponseHead) -> bool {
    let fields = header_fields(head.headers);
    &&& is_status(head.status)
    &&& announced_size(fields) matches Some(size)
        && size + encode_head(head.status, fields).len() <= isize::MAX
}

/// A line `name:value`. The name ends at the first colon.
pub open spec fn is_field_line(line: Seq<u8>) -> bool {
    let colon = position(line, 58) as int;
    &&& colon < line.len()
    &&& is_header_name(line.take(colon))
    &&& is_header_value(line.skip(colon + 1))
}

/// The field of a line `name:value`.
pub open spec fn field_of_line(line: Seq<u8>) -> (Seq<u8>, Seq<u8>) {
    let colon = position(line, 58) as int;
    (lower(line.take(colon)), line.skip(colon + 1))
}

/// Reads lines `name:value` up to a line `-`: the fields, and what follows.
pub open spec fn read_fields(bytes: Seq<u8>) -> Option<(Fields, Seq<u8>)>
    decreases bytes.len(),
{
    let end = position(bytes, 10) as int;
    let line = bytes.take(end);
    let rest = bytes.skip(end + 1);
    if end >= bytes.len() {
        None
    } else if line == seq![45u8] {
        Some((Seq::empty(), rest))
    } else if !is_field_line(line) {
        None
    } else {
        after_fields(seq![field_of_line(line)], read_fields(rest))
    }
}

/// What has been read when `fields` came before `read`.
pub open spec fn after_fields(fields: Fields, read: Option<(Fields, Seq<u8>)>) -> Option<
    (Fields, Seq<u8>),
> {
    match read {
        Some((further, rest)) => Some((fields + further, rest)),
        None => None,
    }
}

/// Reads an entry: a line with a status code, then fields, then the body.
pub open spec fn read_entry(bytes: Seq<u8>) -> Option<Entry> {
    let end = position(bytes, 10) as int;
    if end < bytes.len() && is_status_text(bytes.take(end)) {
        match read_fields(bytes.skip(end + 1)) {
            Some((fields, body)) => Some(
                Entry { status: status_of_text(bytes.take(end)), fields, body },
            ),
            None => None,
        }
    } else {
        None
    }
}

/// Fields that a header map is sure to have room for beside [`CACHE_HEADER`].
pub open spec fn fields_fit(fields: Fields) -> bool {
    field_names(fields).insert(cache_header_name()).len() <= HEADER_NAMES_MAX
}

/// Bytes that are an entry whose fields a header map is sure to have room for.
pub open spec fn is_decodable(bytes: Seq<u8>) -> bool {
    read_entry(bytes) matches Some(entry) && fields_fit(entry.fields)
}

/// The fields after each of `further` has been set in turn.
pub open spec fn with_fields(fields: Fields, further: Fields) -> Fields
    decreases further.len(),
{
    if further.len() == 0 {
        fields
    } else {
        with_field(
            with_fields(fields, further.drop_last()),
            further.last().0,
            further.last().1,
        )
    }
}

/// The fields of a response from the cache: [`CACHE_HEADER`] says `hit`, then
/// each recorded field is set.
pub open spec fn replayed_fields(fields: Fields) -> Fields {
    with_fields(seq![(cache_header_name(), ascii("hit"@))], fields)
}

/// The names of a response from the cache, which are distinct.
pub proof fn lemma_replayed_fields(fields: Fields)
    ensures
        field_names(replayed_fields(fields)) == field_names(fields).insert(cache_header_name()),
        distinct_names(replayed_fields(fields)),
    decreases fields.len(),
{
    let hit = seq![(cache_header_name(), ascii("hit"@))];
    if fields.len() == 0 {
        assert forall|name: Seq<u8>| #[trigger]
            field_names(hit).contains(name) == field_names(fields).insert(
                cache_header_name(),
            ).contains(name) by {
            lemma_field_names(hit, name);
            lemma_field_names(fields, name);
            assert(hit[0].0 == cache_header_name());
        }
    } else {
        let before = fields.drop_last();
        lemma_replayed_fields(before);
        lemma_with_field(replayed_fields(before), fields.last().0, fields.last().1);
        assert(field_names(fields) == field_names(before).insert(fields.last().0)) by {
            assert(fields == before.push(fields.last()));
            lemma_field_names_push(before, fields.last());
        }
        assert(field_names(replayed_fields(fields)) == field_names(fields).insert(
            cache_header_name(),
        ));
    }
}

/// With fewer fields there are no more names.
proof fn lemma_fields_fit(fields: Fields, further: Fields)
    requires
        fields_fit(fields + further),
    ensures
        fields_fit(fields),
{
    let all = field_names(fields + further).insert(cache_header_name());
    let some = field_names(fields).insert(cache_header_name());
    assert forall|name: Seq<u8>| #[trigger] some.contains(name) implies all.contains(name) by {
        lemma_field_names(fields, name);
        lemma_field_names(fields + further, name);
        if field_names(fields).contains(name) {
            let i = choose|i: int| 0 <= i < fields.len() && (#[trigger] fields[i]).0 == name;
            assert((fields + further)[i].0 == name);
        }
    }
    lemma_field_names(fields + further, cache_header_name());
    vstd::set_lib::lemma_len_subset(some, all);
}

/// Whether an entry records a field of that name.
fn is_stored(name: &[u8]) -> (stored: bool)
    ensures
        stored == is_stored_name(name@),
{
    proof {
        reveal_strlit("content-length");
        reveal_strlit("connection");
    }
    !same_bytes(name, ascii_bytes("content-length")) && !same_bytes(
        name,
        ascii_bytes("connection"),
    )
}

/// The body size that a response announces.
fn body_size(headers: &HeaderMap<HeaderValue>) -> (size: Option<usize>)
    ensures
        size == announced_size(header_fields(*headers)),
{
    proof {
        reveal_strlit("content-length");
        assert(lower(ascii("content-length"@)) == ascii("content-length"@));
    }
    match header_text(headers, "content-length") {
        None => Some(0),
        Some(Ok(text)) => parse_usize(ascii_bytes(text.as_str())),
        Some(Err(_)) => None,
    }
}

/// The bytes of an entry for this head, ready for the body to follow; `None`
/// where its announced size is not a number or leaves no room.
pub fn try_response_to_bytes(parts: &ResponseHead) -> (response: Option<Vec<u8>>)
    requires
        is_status(parts.status),
    ensures
        response is Some <==> is_encodable(*parts),
        response matches Some(bytes) ==> bytes@ == encode_head(
            parts.status,
            header_fields(parts.headers),
        ),
        response matches Some(bytes) ==> forall|at: int| #[trigger]
            is_end_mark_at(bytes@, at) <==> at == bytes@.len() - 2,
        response is Some ==> are_held_fields(header_fields(parts.headers)),
{
    let size: usize = match body_size(&parts.headers) {
        Some(size) => size,
        None => return None,
    };
    let text = status_text(parts.status);
    let mut lines: Vec<u8> = Vec::new();
    let list = list_headers(&parts.headers);
    let ghost fields = header_fields(parts.headers);
    for i in 0..list.len()
        invariant
            fields == fields_of(list@),
            lines@ == encode_fields(stored_fields(fields.take(i as int))),
    {
        let (name, value) = &list[i];
        assert(fields[i as int] == (name@, value@));
        assert(fields.take(i + 1).drop_last() == fields.take(i as int));
        if is_stored(name.as_slice()) {
            let ghost before = lines@;
            lines.extend_from_slice(name.as_slice());
            lines.push(58);
            lines.extend_from_slice(value.as_slice());
            lines.push(10);
            proof {
                let stored = stored_fields(fields.take(i + 1));
                assert(stored.drop_last() == stored_fields(fields.take(i as int)));
                assert(lines@ == before + encode_field(fields[i as int]));
            }
        }
    }
    assert(fields.take(fields.len() as int) == fields);
    let status = ascii_bytes(text.as_str());
    assert(encode_head(parts.status, fields).len() == status.len() + 1 + lines.len() + 2);
    let most: usize = isize::MAX as usize;
    if lines.len() > most - 6 || size > most - 6 - lines.len() {
        return None;
    }
    let mut response: Vec<u8> = Vec::with_capacity(size + status.len() + 1 + lines.len() + 2);
    response.extend_from_slice(status);
    response.push(10);
    response.extend_from_slice(lines.as_slice());
    response.push(45);
    response.push(10);
    assert(response@ == encode_head(parts.status, fields));
    proof {
        law_end_mark_is_last(parts.status, fields);
    }
    Some(response)
}

/// The bytes of an entry for this head, ready for the body to follow.
pub fn response_to_bytes(parts: &ResponseHead) -> (response: Vec<u8>)
    requires
        is_encodable(*parts),
    ensures
        response@ == encode_head(parts.status, header_fields(parts.headers)),
        forall|at: int| #[trigger]
            is_end_mark_at(response@, at) <==> at == response@.len() - 2,
        are_held_fields(header_fields(parts.headers)),
{
    try_response_to_bytes(parts).unwrap()
}

/// The status, header fields and body that an entry holds; `None` where the
/// bytes are no entry, or where a header map has no room for the fields.
pub fn try_bytes_to_parts<'a>(bs: &'a [u8]) -> (parts: Option<
    (u16, HeaderMap<HeaderValue>, &'a [u8]),
>)
    ensures
        is_decodable(bs@) ==> parts is Some,
        parts matches Some((status, headers, body)) ==> {
            &&& read_entry(bs@) matches Some(entry)
            &&& status == entry.status
            &&& header_fields(headers) == replayed_fields(entry.fields)
            &&& body@ == entry.body
        },
{
    proof {
        reveal_strlit("X-CRAP-CACHE");
        reveal_strlit("x-crap-cache");
        reveal_strlit("hit");
    }
    let first: usize = find_byte(bs, 10);
    if first == bs.len() {
        return None;
    }
    assert(bs@.subrange(0, first as int) == bs@.take(first as int));
    let status: u16 = match status_from_bytes(slice_subrange(bs, 0, first)) {
        Ok(status) => status,
        Err(_) => return None,
    };
    let mut headers = new_headers();
    let ghost mut done: Fields = Seq::empty();
    proof {
        assert(field_names(done) == Set::<Seq<u8>>::empty());
        assert(lower(ascii(CACHE_HEADER@)) == cache_header_name());
    }
    if !insert_header(&mut headers, ascii_bytes(CACHE_HEADER), ascii_bytes("hit")) {
        return None;
    }
    assert(after_fields(done, read_fields(bs@.skip(first + 1))) == read_fields(
        bs@.skip(first + 1),
    ));
    let mut start: usize = first + 1;
    loop
        invariant
            start <= bs.len(),
            read_fields(bs@.skip(first + 1)) == after_fields(
                done,
                read_fields(bs@.skip(start as int)),
            ),
            header_fields(headers) == replayed_fields(done),
            are_fields(done),
            first == position(bs@, 10),
            first < bs.len(),
            is_status_text(bs@.take(first as int)),
            status == status_of_text(bs@.take(first as int)),
        decreases bs.len() - start,
    {
        let rest = slice_subrange(bs, start, bs.len());
        assert(rest@ == bs@.skip(start as int));
        let end: usize = find_byte(rest, 10);
        if end == rest.len() {
            return None;
        }
        let line = slice_subrange(rest, 0, end);
        assert(line@ == rest@.take(end as int));
        let next: usize = start + end + 1;
        assert(rest@.skip(end + 1) == bs@.skip(next as int));
        if line.len() == 1 && line[0] == 45 {
            assert(line@ == seq![45u8]);
            return Some((status, headers, slice_subrange(bs, next, bs.len())));
        }
        let colon: usize = find_byte(line, 58);
        if colon == line.len() {
            return None;
        }
        assert(line@.subrange(0, colon as int) == line@.take(colon as int));
        assert(line@.subrange(colon + 1, line@.len() as int) == line@.skip(colon + 1));
        let name = match header_name(slice_subrange(line, 0, colon)) {
            Ok(name) => name,
            Err(_) => return None,
        };
        let value = match header_value(slice_subrange(line, colon + 1, line.len())) {
            Ok(value) => value,
            Err(_) => return None,
        };
        let ghost field = field_of_line(line@);
        proof {
            lemma_lower(line@.take(colon as int));
            lemma_replayed_fields(done);
            lemma_replayed_are_fields(done);
            assert(done.push(field).drop_last() == done);
            assert(is_field(field));
            let read = read_fields(bs@.skip(next as int));
            assert(after_fields(done, after_fields(seq![field], read)) == after_fields(
                done.push(field),
                read,
            )) by {
                if read is Some {
                    let further = read.unwrap().0;
                    assert(done + (seq![field] + further) == done.push(field) + further);
                }
            }
        }
        if !insert_header(&mut headers, name.as_slice(), value.as_slice()) {
            proof {
                if let Some((further, _)) = read_fields(bs@.skip(start as int)) {
                    if fields_fit(done + further) {
                        lemma_fields_fit(done, further);
                    }
                }
            }
            return None;
        }
        proof {
            done = done.push(field);
        }
        start = next;
    }
}

/// The status, header fields and body that an entry holds.
pub fn bytes_to_parts<'a>(bs: &'a [u8]) -> (parts: (u16, HeaderMap<HeaderValue>, &'a [u8]))
    requires
        is_decodable(bs@),
    ensures
        parts.0 == read_entry(bs@).unwrap().status,
        header_fields(parts.1) == replayed_fields(read_entry(bs@).unwrap().fields),
        parts.2@ == read_entry(bs@).unwrap().body,
{
    try_bytes_to_parts(bs).unwrap()
}

/// A field as the wire brings it: a header name in lower case and a value.
pub open spec fn is_field(field: (Seq<u8>, Seq<u8>)) -> bool {
    &&& is_header_name(field.0)
    &&& lower(field.0) == field.0
    &&& is_header_value(field.1)
}

/// Every field is as the wire brings it.
pub open spec fn are_fields(fields: Fields) -> bool {
    forall|i: int| 0 <= i < fields.len() ==> is_field(#[trigger] fields[i])
}

/// The value of the last field of that name.
pub open spec fn last_value(fields: Fields, name: Seq<u8>) -> Option<Seq<u8>>
    decreases fields.len(),
{
    if fields.len() == 0 {
        None
    } else if fields.last().0 == name {
        Some(fields.last().1)
    } else {
        last_value(fields.drop_last(), name)
    }
}

proof fn lemma_encode_fields_front(fields: Fields)
    requires
        fields.len() > 0,
    ensures
        encode_fields(fields) == encode_field(fields[0]) + encode_fields(fields.drop_first()),
    decreases fields.len(),
{
    let rest = fields.drop_first();
    if fields.len() == 1 {
        assert(fields.drop_last() == Seq::<(Seq<u8>, Seq<u8>)>::empty());
        assert(encode_fields(fields.drop_last()) == Seq::<u8>::empty());
        assert(encode_fields(fields) == encode_field(fields[0]));
        assert(encode_fields(rest) == Seq::<u8>::empty());
    } else {
        lemma_encode_fields_front(fields.drop_last());
        assert(fields.drop_last().drop_first() == rest.drop_last());
        assert(encode_fields(fields) == encode_field(fields[0]) + encode_fields(rest));
    }
}

/// A field that a map can hold, and what follows it, are read as they were
/// written, where the field is as the wire brings it; otherwise not at all.
proof fn lemma_read_field(field: (Seq<u8>, Seq<u8>), rest: Seq<u8>)
    requires
        is_held_field(field),
    ensures
        read_fields(encode_field(field) + rest) == if is_field(field) {
            after_fields(seq![field], read_fields(rest))
        } else {
            None
        },
{
    let bytes = encode_field(field) + rest;
    let end: int = field.0.len() + 1 + field.1.len() as int;
    let line = bytes.take(end);
    let colon = field.0.len() as int;
    assert(bytes[end] == 10);
    assert forall|i: int| 0 <= i < end implies bytes[i] != 10 by {
        if i < colon {
            assert(bytes[i] == field.0[i]);
            assert(is_held_name_byte(field.0[i]));
        } else if i > colon {
            assert(bytes[i] == field.1[i - colon - 1]);
            assert(is_held_value_byte(field.1[i - colon - 1]));
        }
    }
    lemma_position_is(bytes, 10, end);
    assert(line[colon] == 58);
    assert forall|i: int| 0 <= i < colon implies line[i] != 58 by {
        assert(line[i] == field.0[i]);
        assert(is_held_name_byte(field.0[i]));
    }
    lemma_position_is(line, 58, colon);
    assert(line.take(colon) == field.0);
    assert(line.skip(colon + 1) == field.1);
    assert(bytes.skip(end + 1) == rest);
    assert(line.len() > 1);
    if is_header_name(field.0) {
        assert forall|i: int| 0 <= i < field.0.len() implies lower(field.0)[i] == field.0[i] by {
            assert(is_held_name_byte(field.0[i]));
        }
        assert(lower(field.0) == field.0);
    }
}

/// Fields that a map can hold, and what follows them, are read as they were
/// written, where they are as the wire brings them; otherwise not at all.
proof fn lemma_read_fields(fields: Fields, rest: Seq<u8>)
    requires
        are_held_fields(fields),
    ensures
        read_fields(encode_fields(fields) + rest) == if are_fields(fields) {
            after_fields(fields, read_fields(rest))
        } else {
            None
        },
    decreases fields.len(),
{
    if fields.len() == 0 {
        assert(encode_fields(fields) + rest == rest);
        if let Some((further, _)) = read_fields(rest) {
            assert(fields + further == further);
        }
    } else {
        let others = fields.drop_first();
        assert(are_held_fields(others)) by {
            assert forall|i: int| 0 <= i < others.len() implies is_held_field(
                #[trigger] others[i],
            ) by {
                assert(others[i] == fields[i + 1]);
            }
        }
        assert(are_fields(fields) <==> is_field(fields[0]) && are_fields(others)) by {
            if are_fields(fields) {
                assert forall|i: int| 0 <= i < others.len() implies is_field(
                    #[trigger] others[i],
                ) by {
                    assert(others[i] == fields[i + 1]);
                }
            }
            if is_field(fields[0]) && are_fields(others) {
                assert forall|i: int| 0 <= i < fields.len() implies is_field(
                    #[trigger] fields[i],
                ) by {
                    if i > 0 {
                        assert(fields[i] == others[i - 1]);
                    }
                }
            }
        }
        lemma_encode_fields_front(fields);
        assert(encode_fields(fields) + rest == encode_field(fields[0]) + (encode_fields(others)
            + rest));
        lemma_read_field(fields[0], encode_fields(others) + rest);
        lemma_read_fields(others, rest);
        if let Some((further, _)) = read_fields(rest) {
            assert(seq![fields[0]] + (others + further) == fields + further);
        }
    }
}

/// Every field that an entry records is a field of the response.
proof fn lemma_stored_fields(fields: Fields)
    ensures
        forall|i: int|
            0 <= i < stored_fields(fields).len() ==> fields.contains(
                #[trigger] stored_fields(fields)[i],
            ),
    decreases fields.len(),
{
    if fields.len() > 0 {
        let before = fields.drop_last();
        let stored = stored_fields(fields);
        lemma_stored_fields(before);
        assert forall|i: int| 0 <= i < stored.len() implies fields.contains(
            #[trigger] stored[i],
        ) by {
            if i < stored_fields(before).len() {
                assert(before.contains(stored_fields(before)[i]));
                let j = choose|j: int|
                    0 <= j < before.len() && before[j] == stored_fields(before)[i];
                assert(fields[j] == stored[i]);
            } else {
                assert(fields[fields.len() - 1] == stored[i]);
            }
        }
    }
}

/// Lines of fields that a map can hold bring no line `-` behind lines that have
/// none.
proof fn lemma_no_end_mark(start: Seq<u8>, fields: Fields)
    requires
        start.len() > 0,
        start.last() == 10,
        forall|at: int| !is_end_mark_at(start, at),
        are_held_fields(fields),
    ensures
        (start + encode_fields(fields)).last() == 10,
        forall|at: int| !is_end_mark_at(start + encode_fields(fields), at),
    decreases fields.len(),
{
    if fields.len() == 0 {
        assert(start + encode_fields(fields) == start);
    } else {
        let before = fields.drop_last();
        let field = fields[fields.len() - 1];
        assert forall|i: int| 0 <= i < before.len() implies is_held_field(#[trigger] before[i]) by {
            assert(before[i] == fields[i]);
        }
        lemma_no_end_mark(start, before);
        let lines = start + encode_fields(before);
        let all = start + encode_fields(fields);
        assert(all == lines + encode_field(field));
        assert forall|at: int| !is_end_mark_at(all, at) by {
            if is_end_mark_at(all, at) {
                let next = at + 1 - lines.len();
                let colon = field.0.len() as int;
                if next < 0 {
                    assert(is_end_mark_at(lines, at));
                } else if next < colon {
                    assert(all[at + 1] == field.0[next]);
                    assert(is_held_name_byte(field.0[next]));
                } else if colon < next < colon + 1 + field.1.len() {
                    assert(all[at + 1] == field.1[next - colon - 1]);
                    assert(is_held_value_byte(field.1[next - colon - 1]));
                } else if next > colon {
                    let previous = next - 2;
                    if previous < colon {
                        assert(all[at - 1] == field.0[previous]);
                        assert(is_held_name_byte(field.0[previous]));
                    } else if previous > colon {
                        assert(all[at - 1] == field.1[previous - colon - 1]);
                        assert(is_held_value_byte(field.1[previous - colon - 1]));
                    }
                }
            }
        }
    }
}

/// The line `-` that ends the head of an entry is its last line, and no other
/// line of the head is like it.
pub proof fn law_end_mark_is_last(status: u16, fields: Fields)
    requires
        is_status(status),
        are_held_fields(fields),
    ensures
        forall|at: int| #[trigger]
            is_end_mark_at(encode_head(status, fields), at) <==> at == encode_head(
                status,
                fields,
            ).len() - 2,
{
    let stored = stored_fields(fields);
    let start = status_digits(status) + seq![10u8];
    let lines = start + encode_fields(stored);
    let head = encode_head(status, fields);
    lemma_status_digits(status);
    lemma_stored_fields(fields);
    assert(are_held_fields(stored)) by {
        assert forall|i: int| 0 <= i < stored.len() implies is_held_field(#[trigger] stored[i]) by {
            assert(fields.contains(stored[i]));
        }
    }
    assert forall|at: int| !is_end_mark_at(start, at) by {
        if is_end_mark_at(start, at) {
            assert(at == 2);
        }
    }
    lemma_no_end_mark(start, stored);
    assert(head == lines + seq![45u8, 10u8]);
    assert forall|at: int| #[trigger] is_end_mark_at(head, at) <==> at == head.len() - 2 by {
        if is_end_mark_at(head, at) && at < head.len() - 2 {
            if at + 1 < lines.len() {
                assert(is_end_mark_at(lines, at));
            }
        }
    }
}

/// What is read from an entry are fields as the wire brings them.
proof fn lemma_read_are_fields(bytes: Seq<u8>)
    ensures
        read_fields(bytes) matches Some((fields, _)) ==> are_fields(fields),
    decreases bytes.len(),
{
    let end = position(bytes, 10) as int;
    let line = bytes.take(end);
    lemma_position(bytes, 10);
    if end < bytes.len() && line != seq![45u8] && is_field_line(line) {
        let colon = position(line, 58) as int;
        let field = field_of_line(line);
        lemma_lower(line.take(colon));
        lemma_read_are_fields(bytes.skip(end + 1));
        if let Some((further, _)) = read_fields(bytes.skip(end + 1)) {
            let fields = seq![field] + further;
            assert forall|i: int| 0 <= i < fields.len() implies is_field(#[trigger] fields[i]) by {
                if i > 0 {
                    assert(fields[i] == further[i - 1]);
                }
            }
        }
    }
}

proof fn lemma_without_name_are_fields(fields: Fields, name: Seq<u8>)
    requires
        are_fields(fields),
    ensures
        are_fields(without_name(fields, name)),
    decreases fields.len(),
{
    if fields.len() > 0 {
        let rest = fields.drop_first();
        assert forall|i: int| 0 <= i < rest.len() implies is_field(#[trigger] rest[i]) by {
            assert(rest[i] == fields[i + 1]);
        }
        lemma_without_name_are_fields(rest, name);
        let left = without_name(fields, name);
        assert forall|i: int| 0 <= i < left.len() implies is_field(#[trigger] left[i]) by {
            if fields[0].0 != name && i > 0 {
                assert(left[i] == without_name(rest, name)[i - 1]);
            }
        }
    }
}

proof fn lemma_with_field_are_fields(fields: Fields, name: Seq<u8>, value: Seq<u8>)
    requires
        are_fields(fields),
        is_field((name, value)),
    ensures
        are_fields(with_field(fields, name, value)),
    decreases fields.len(),
{
    if fields.len() > 0 {
        let rest = fields.drop_first();
        assert forall|i: int| 0 <= i < rest.len() implies is_field(#[trigger] rest[i]) by {
            assert(rest[i] == fields[i + 1]);
        }
        let set = with_field(fields, name, value);
        lemma_without_name_are_fields(rest, name);
        lemma_with_field_are_fields(rest, name, value);
        assert forall|i: int| 0 <= i < set.len() implies is_field(#[trigger] set[i]) by {
            if i > 0 {
                if fields[0].0 == name {
                    assert(set[i] == without_name(rest, name)[i - 1]);
                } else {
                    assert(set[i] == with_field(rest, name, value)[i - 1]);
                }
            }
        }
    }
}

proof fn lemma_replayed_are_fields(fields: Fields)
    requires
        are_fields(fields),
    ensures
        are_fields(replayed_fields(fields)),
    decreases fields.len(),
{
    if fields.len() == 0 {
        reveal_strlit("x-crap-cache");
        reveal_strlit("hit");
        assert(lower(cache_header_name()) == cache_header_name());
    } else {
        let before = fields.drop_last();
        assert forall|i: int| 0 <= i < before.len() implies is_field(#[trigger] before[i]) by {
            assert(before[i] == fields[i]);
        }
        lemma_replayed_are_fields(before);
        assert(is_field(fields[fields.len() - 1]));
        lemma_with_field_are_fields(replayed_fields(before), fields.last().0, fields.last().1);
    }
}

/// A response from the cache has distinct names, and fields as the wire brings
/// them.
pub proof fn lemma_replay(bytes: Seq<u8>)
    requires
        read_entry(bytes) is Some,
    ensures
        ({
            let fields = replayed_fields(read_entry(bytes).unwrap().fields);
            &&& distinct_names(fields)
            &&& are_fields(fields)
            &&& is_decodable(bytes) ==> has_room(fields)
        }),
{
    let fields = read_entry(bytes).unwrap().fields;
    lemma_read_are_fields(bytes.skip(position(bytes, 10) as int + 1));
    lemma_replayed_are_fields(fields);
    lemma_replayed_fields(fields);
}

/// What is written is read back: an entry made for a response, followed by any
/// body, reads as the status of the response, those of its fields that an
/// entry records, and that body. Where one of these fields is not as the wire
/// brings them, the entry cannot be read.
pub proof fn law_entry_reads_back(status: u16, fields: Fields, body: Seq<u8>)
    requires
        is_status(status),
        are_held_fields(fields),
    ensures
        read_entry(encode_head(status, fields) + body) == if are_fields(stored_fields(fields)) {
            Some((Entry { status, fields: stored_fields(fields), body }))
        } else {
            None
        },
{
    let stored = stored_fields(fields);
    let mark = seq![45u8, 10u8];
    let bytes = encode_head(status, fields) + body;
    let digits = status_digits(status);
    lemma_status_digits(status);
    assert(bytes[3] == 10);
    lemma_position_is(bytes, 10, 3);
    assert(bytes.take(3) == digits);
    assert(bytes.skip(4) == encode_fields(stored) + (mark + body));
    lemma_stored_fields(fields);
    assert(are_held_fields(stored)) by {
        assert forall|i: int| 0 <= i < stored.len() implies is_held_field(#[trigger] stored[i]) by {
            assert(fields.contains(stored[i]));
        }
    }
    lemma_read_fields(stored, mark + body);
    let end = mark + body;
    assert(end[0] == 45 && end[1] == 10);
    lemma_position_is(end, 10, 1);
    assert(end.take(1) == seq![45u8]);
    assert(end.skip(2) == body);
    assert(read_fields(end) == Some((Seq::<(Seq<u8>, Seq<u8>)>::empty(), body)));
    assert(stored + Seq::<(Seq<u8>, Seq<u8>)>::empty() == stored);
}

/// The fields of a map are as the wire brings them where no name has a `"` or a
/// NUL and no value has a NUL, and so are those that an entry records.
pub proof fn law_plain_fields_are_read(fields: Fields)
    requires
        are_held_fields(fields),
        forall|i: int|
            0 <= i < fields.len() ==> {
                let field = #[trigger] fields[i];
                !field.0.contains(34u8) && !field.0.contains(0u8) && !field.1.contains(0u8)
            },
    ensures
        are_fields(fields),
        are_fields(stored_fields(fields)),
{
    assert forall|i: int| 0 <= i < fields.len() implies is_field(#[trigger] fields[i]) by {
        let (name, value) = fields[i];
        assert(is_held_field(fields[i]));
        assert forall|j: int| 0 <= j < name.len() implies is_name_byte(#[trigger] name[j])
            && lower_byte(name[j]) == name[j] by {
            assert(is_held_name_byte(name[j]));
            assert(name.contains(name[j]));
        }
        assert forall|j: int| 0 <= j < value.len() implies is_value_byte(#[trigger] value[j]) by {
            assert(is_held_value_byte(value[j]));
            assert(value.contains(value[j]));
        }
        assert(lower(name) == name);
    }
    let stored = stored_fields(fields);
    lemma_stored_fields(fields);
    assert forall|i: int| 0 <= i < stored.len() implies is_field(#[trigger] stored[i]) by {
        assert(fields.contains(stored[i]));
    }
}

/// An entry records the names of the response but for two, with the same last
/// values.
pub proof fn lemma_stored_names(fields: Fields)
    ensures
        forall|name: Seq<u8>| #[trigger]
            field_names(stored_fields(fields)).contains(name) <==> field_names(fields).contains(
                name,
            ) && is_stored_name(name),
        forall|name: Seq<u8>|
            is_stored_name(name) ==> #[trigger] last_value(stored_fields(fields), name)
                == last_value(fields, name),
    decreases fields.len(),
{
    if fields.len() > 0 {
        let before = fields.drop_last();
        let last = fields.last();
        lemma_stored_names(before);
        assert(fields == before.push(last));
        lemma_field_names_push(before, last);
        lemma_field_names_push(stored_fields(before), last);
        assert forall|name: Seq<u8>| is_stored_name(name) implies #[trigger] last_value(
            stored_fields(fields),
            name,
        ) == last_value(fields, name) by {
            assert(last_value(stored_fields(before), name) == last_value(before, name));
            if is_stored_name(last.0) {
                assert(stored_fields(fields).drop_last() == stored_fields(before));
            }
        }
    }
}

/// The entry of a response can be read, whatever body follows, exactly where the
/// fields that it records are as the wire brings them and fit into a header map.
pub proof fn law_entry_is_decodable(status: u16, fields: Fields, body: Seq<u8>)
    requires
        is_status(status),
        are_held_fields(fields),
    ensures
        is_decodable(encode_head(status, fields) + body) <==> are_fields(stored_fields(fields))
            && fields_fit(stored_fields(fields)),
{
    law_entry_reads_back(status, fields, body);
}

/// A response from the cache has, of every name, the last value that was
/// recorded; where none was, [`CACHE_HEADER`] says `hit` and any other name is
/// missing. No name comes twice.
pub proof fn law_replay_has_last_values(fields: Fields, name: Seq<u8>)
    ensures
        distinct_names(replayed_fields(fields)),
        first_value(replayed_fields(fields), name) == match last_value(fields, name) {
            Some(value) => Some(value),
            None => if name == cache_header_name() {
                Some(ascii("hit"@))
            } else {
                None
            },
        },
    decreases fields.len(),
{
    lemma_replayed_fields(fields);
    if fields.len() == 0 {
        let hit = seq![(cache_header_name(), ascii("hit"@))];
        assert(replayed_fields(fields) == hit);
        assert(hit.drop_first() == Seq::<(Seq<u8>, Seq<u8>)>::empty());
        assert(first_value(hit.drop_first(), name) is None);
    } else {
        let before = fields.drop_last();
        law_replay_has_last_values(before, name);
        lemma_with_field(replayed_fields(before), fields.last().0, fields.last().1);
    }
}

/// A new name comes last.
proof fn lemma_with_new_field(fields: Fields, name: Seq<u8>, value: Seq<u8>)
    requires
        !field_names(fields).contains(name),
    ensures
        with_field(fields, name, value) == fields.push((name, value)),
    decreases fields.len(),
{
    if fields.len() > 0 {
        let rest = fields.drop_first();
        lemma_field_names(fields, name);
        lemma_field_names(rest, name);
        assert(fields[0].0 != name);
        if field_names(rest).contains(name) {
            let i = choose|i: int| 0 <= i < rest.len() && (#[trigger] rest[i]).0 == name;
            assert(fields[i + 1].0 == name);
        }
        lemma_with_new_field(rest, name, value);
        assert(seq![fields[0]] + rest.push((name, value)) == fields.push((name, value)));
    } else {
        assert(fields.push((name, value)) == seq![(name, value)]);
    }
}

/// Where no name was recorded twice, and [`CACHE_HEADER`] not at all, a response
/// from the cache has just the recorded fields, in their order, behind `hit`.
pub proof fn law_replay_of_distinct_fields(fields: Fields)
    requires
        distinct_names(fields),
        !field_names(fields).contains(cache_header_name()),
    ensures
        replayed_fields(fields) == seq![(cache_header_name(), ascii("hit"@))] + fields,
    decreases fields.len(),
{
    let hit = seq![(cache_header_name(), ascii("hit"@))];
    if fields.len() == 0 {
        assert(hit + fields == hit);
    } else {
        let before = fields.drop_last();
        let last = fields.last();
        assert(fields == before.push(last));
        lemma_field_names_push(before, last);
        assert(distinct_names(before)) by {
            assert forall|i: int, j: int|
                0 <= i < j < before.len() implies (#[trigger] before[i]).0 != (
            #[trigger] before[j]).0 by {
                assert(fields[i].0 != fields[j].0);
            }
        }
        law_replay_of_distinct_fields(before);
        lemma_replayed_fields(before);
        lemma_field_names(before, last.0);
        if field_names(before).contains(last.0) {
            let i = choose|i: int| 0 <= i < before.len() && (#[trigger] before[i]).0 == last.0;
            assert(fields[i].0 != fields[fields.len() - 1].0);
        }
        lemma_with_new_field(replayed_fields(before), last.0, last.1);
        assert((hit + before).push(last) == hit + fields);
    }
}

/// Names that are distinct in a response are so in its entry.
pub proof fn lemma_stored_distinct(fields: Fields)
    requires
        distinct_names(fields),
    ensures
        distinct_names(stored_fields(fields)),
    decreases fields.len(),
{
    if fields.len() > 0 {
        let before = fields.drop_last();
        let last = fields.last();
        let stored = stored_fields(fields);
        assert forall|i: int, j: int| 0 <= i < j < before.len() implies (#[trigger] before[i]).0
            != (#[trigger] before[j]).0 by {
            assert(fields[i].0 != fields[j].0);
        }
        lemma_stored_distinct(before);
        if is_stored_name(last.0) {
            lemma_stored_fields(before);
            assert forall|i: int, j: int|
                0 <= i < j < stored.len() implies (#[trigger] stored[i]).0 != (
            #[trigger] stored[j]).0 by {
                assert(stored[i] == stored_fields(before)[i]);
                if j < stored_fields(before).len() {
                    assert(stored[j] == stored_fields(before)[j]);
                } else {
                    assert(before.contains(stored_fields(before)[i]));
                    let k = choose|k: int|
                        0 <= k < before.len() && before[k] == stored_fields(before)[i];
                    assert(fields[k].0 != fields[fields.len() - 1].0);
                }
            }
        }
    }
}

/// A response from the cache never has the fields that speak of one transfer.
pub proof fn law_replay_has_no_transfer_fields(fields: Fields)
    ensures
        first_value(replayed_fields(stored_fields(fields)), ascii("content-length"@)) is None,
        first_value(replayed_fields(stored_fields(fields)), ascii("connection"@)) is None,
{
    reveal_strlit("content-length");
    reveal_strlit("connection");
    reveal_strlit("x-crap-cache");
    let stored = stored_fields(fields);
    lemma_stored_names(fields);
    lemma_last_value(stored, ascii("content-length"@));
    lemma_last_value(stored, ascii("connection"@));
    assert(ascii("content-length"@).len() == 14);
    assert(ascii("connection"@).len() == 10);
    assert(cache_header_name().len() == 12);
    law_replay_has_last_values(stored, ascii("content-length"@));
    law_replay_has_last_values(stored, ascii("connection"@));
}

/// A name has a last value where it is among the names.
pub proof fn lemma_last_value(fields: Fields, name: Seq<u8>)
    ensures
        last_value(fields, name) is Some <==> field_names(fields).contains(name),
    decreases fields.len(),
{
    if fields.len() == 0 {
        lemma_field_names(fields, name);
    } else {
        lemma_last_value(fields.drop_last(), name);
        assert(fields == fields.drop_last().push(fields.last()));
        lemma_field_names_push(fields.drop_last(), fields.last());
    }
}

/// Of fields one after the other, an entry records those of the first part and
/// then those of the second.
pub proof fn law_fields_are_recorded_in_turn(fields: Fields, further: Fields)
    ensures
        stored_fields(fields + further) == stored_fields(fields) + stored_fields(further),
    decreases further.len(),
{
    let all = fields + further;
    if further.len() == 0 {
        assert(all == fields);
        assert(stored_fields(fields) + further == stored_fields(fields));
    } else {
        assert(all.drop_last() == fields + further.drop_last());
        law_fields_are_recorded_in_turn(fields, further.drop_last());
        assert(stored_fields(all) == stored_fields(fields) + stored_fields(further));
    }
}

/// Every field is recorded as it is, but for `content-length` and `connection`.
pub proof fn law_each_other_field_is_recorded(field: (Seq<u8>, Seq<u8>))
    ensures
        stored_fields(seq![field]) == if field.0 == ascii("content-length"@) || field.0 == ascii(
            "connection"@,
        ) {
            Seq::<(Seq<u8>, Seq<u8>)>::empty()
        } else {
            seq![field]
        },
{
    let one = seq![field];
    let none = Seq::<(Seq<u8>, Seq<u8>)>::empty();
    assert(one.drop_last() == none);
    assert(stored_fields(none) == none);
    assert(none.push(field) == one);
}

/// Whatever a name is, unless it is `content-length` or `connection`: an entry
/// has it where the response has it, and the response from the cache has its
/// last value. Of the two others it has nothing.
pub proof fn law_every_other_name_is_replayed(fields: Fields, name: Seq<u8>)
    ensures
        name != ascii("content-length"@) && name != ascii("connection"@) ==> {
            &&& field_names(stored_fields(fields)).contains(name) == field_names(fields).contains(
                name,
            )
            &&& last_value(stored_fields(fields), name) == last_value(fields, name)
            &&& first_value(replayed_fields(stored_fields(fields)), name) == match last_value(
                fields,
                name,
            ) {
                Some(value) => Some(value),
                None => if name == ascii("x-crap-cache"@) {
                    Some(ascii("hit"@))
                } else {
                    None
                },
            }
        },
        name == ascii("content-length"@) || name == ascii("connection"@) ==> {
            &&& !field_names(stored_fields(fields)).contains(name)
            &&& first_value(replayed_fields(stored_fields(fields)), name) is None
        },
{
    lemma_stored_names(fields);
    law_replay_has_last_values(stored_fields(fields), name);
    law_replay_has_no_transfer_fields(fields);
}

/// The head of an entry without fields: the three digits of the status, a line
/// feed, and the line `-`.
pub proof fn law_head_without_fields(status: u16)
    requires
        100 <= status <= 999,
    ensures
        ({
            let head = encode_head(status, Seq::<(Seq<u8>, Seq<u8>)>::empty());
            &&& head.len() == 6
            &&& forall|i: int| 0 <= i < 3 ==> 48 <= #[trigger] head[i] <= 57
            &&& (head[0] - 48) * 100 + (head[1] - 48) * 10 + (head[2] - 48) == status
            &&& head.skip(3) == seq![10u8, 45u8, 10u8]
        }),
{
    let none = Seq::<(Seq<u8>, Seq<u8>)>::empty();
    let head = encode_head(status, none);
    lemma_status_digits(status);
    assert(stored_fields(none) == none);
    assert(encode_fields(none) == Seq::<u8>::empty());
    assert(head.skip(3) == seq![10u8, 45u8, 10u8]);
    assert(head[0] == status_digits(status)[0]);
    assert(head[1] == status_digits(status)[1]);
    assert(head[2] == status_digits(status)[2]);
}

/// What a further field adds to the head of an entry: its name, a colon, its
/// value and a line feed, before the line `-`. `content-length` and `connection`
/// add nothing.
pub proof fn law_head_with_further_field(status: u16, fields: Fields, field: (Seq<u8>, Seq<u8>))
    ensures
        ({
            let head = encode_head(status, fields);
            encode_head(status, fields.push(field)) == if field.0 == ascii("content-length"@)
                || field.0 == ascii("connection"@) {
                head
            } else {
                head.take(head.len() - 2) + field.0 + seq![58u8] + field.1 + seq![
                    10u8,
                    45u8,
                    10u8,
                ]
            }
        }),
{
    let more = fields.push(field);
    let stored = stored_fields(fields);
    let head = encode_head(status, fields);
    assert(more.drop_last() == fields);
    if field.0 != ascii("content-length"@) && field.0 != ascii("connection"@) {
        assert(stored.push(field).drop_last() == stored);
        assert(head.take(head.len() - 2) == status_digits(status) + seq![10u8] + encode_fields(
            stored,
        ));
        assert(encode_head(status, more) == head.take(head.len() - 2) + field.0 + seq![58u8]
            + field.1 + seq![10u8, 45u8, 10u8]);
    }
}

/// An entry can be made for a response without `content-length`, and for one
/// whose `content-length` is a number, as long as head and body together can be
/// addressed; and for no other.
pub proof fn law_numbers_are_sizes(head: ResponseHead)
    requires
        100 <= head.status <= 999,
    ensures
        ({
            let fields = header_fields(head.headers);
            let most = isize::MAX - encode_head(head.status, fields).len();
            is_encodable(head) <==> match first_value(fields, ascii("content-length"@)) {
                None => 0 <= most,
                Some(value) => usize_of_text(value) matches Some(size) && size <= most,
            }
        }),
{
    let fields = header_fields(head.headers);
    if let Some(value) = first_value(fields, ascii("content-length"@)) {
        if usize_of_text(value) is Some {
            let digits = unsigned_part(value);
            assert(all_digits(digits));
            assert forall|i: int| 0 <= i < value.len() implies is_visible_byte(
                #[trigger] value[i],
            ) by {
                if value[0] == 43 {
                    if i > 0 {
                        assert(digits[i - 1] == value[i]);
                    }
                } else {
                    assert(digits[i] == value[i]);
                }
            }
        }
    }
}

/// Fields with their names in lower case.
pub open spec fn in_lower_case(fields: Fields) -> Fields {
    fields.map_values(|field: (Seq<u8>, Seq<u8>)| (lower(field.0), field.1))
}

/// Every name is a header name, in either case, and every value a header value.
pub open spec fn are_written_fields(fields: Fields) -> bool {
    forall|i: int|
        0 <= i < fields.len() ==> is_header_name((#[trigger] fields[i]).0) && is_header_value(
            fields[i].1,
        )
}

proof fn lemma_read_written_fields(fields: Fields, rest: Seq<u8>)
    requires
        are_written_fields(fields),
    ensures
        read_fields(encode_fields(fields) + rest) == after_fields(
            in_lower_case(fields),
            read_fields(rest),
        ),
    decreases fields.len(),
{
    if fields.len() == 0 {
        assert(encode_fields(fields) + rest == rest);
        if let Some((further, _)) = read_fields(rest) {
            assert(in_lower_case(fields) + further == further);
        }
    } else {
        let field = fields[0];
        let others = fields.drop_first();
        assert forall|i: int| 0 <= i < others.len() implies is_header_name(
            (#[trigger] others[i]).0,
        ) && is_header_value(others[i].1) by {
            assert(others[i] == fields[i + 1]);
        }
        lemma_encode_fields_front(fields);
        lemma_read_written_fields(others, rest);
        let behind = encode_fields(others) + rest;
        let bytes = encode_field(field) + behind;
        assert(encode_fields(fields) + rest == bytes);
        let colon = field.0.len() as int;
        let end: int = colon + 1 + field.1.len() as int;
        let line = bytes.take(end);
        assert(bytes[end] == 10);
        assert forall|i: int| 0 <= i < end implies bytes[i] != 10 by {
            if i < colon {
                assert(bytes[i] == field.0[i]);
                assert(is_name_byte(field.0[i]));
            } else if i > colon {
                assert(bytes[i] == field.1[i - colon - 1]);
                assert(is_value_byte(field.1[i - colon - 1]));
            }
        }
        lemma_position_is(bytes, 10, end);
        assert(line[colon] == 58);
        assert forall|i: int| 0 <= i < colon implies line[i] != 58 by {
            assert(line[i] == field.0[i]);
            assert(is_name_byte(field.0[i]));
        }
        lemma_position_is(line, 58, colon);
        assert(line.take(colon) == field.0);
        assert(line.skip(colon + 1) == field.1);
        assert(bytes.skip(end + 1) == behind);
        assert(line.len() > 1);
        let low = (lower(field.0), field.1);
        assert(in_lower_case(fields) == seq![low] + in_lower_case(others));
        if let Some((further, _)) = read_fields(rest) {
            assert(seq![low] + (in_lower_case(others) + further) == in_lower_case(fields)
                + further);
        }
    }
}

/// An entry may be written with names in either case: it reads as its status,
/// its fields with names in lower case, all of them and in their order, and what
/// follows the line `-`, whatever that is.
pub proof fn law_written_entry_is_read(status: u16, fields: Fields, body: Seq<u8>)
    requires
        100 <= status <= 999,
        are_written_fields(fields),
    ensures
        ({
            let lines = status_digits(status) + seq![10u8] + encode_fields(fields);
            let entry = read_entry(lines + seq![45u8, 10u8] + body);
            &&& entry matches Some(entry)
            &&& entry.status == status
            &&& entry.fields == in_lower_case(fields)
            &&& entry.body == body
        }),
{
    let mark = seq![45u8, 10u8];
    let digits = status_digits(status);
    let bytes = digits + seq![10u8] + encode_fields(fields) + mark + body;
    lemma_status_digits(status);
    assert(bytes[3] == 10);
    lemma_position_is(bytes, 10, 3);
    assert(bytes.take(3) == digits);
    assert(bytes.skip(4) == encode_fields(fields) + (mark + body));
    lemma_read_written_fields(fields, mark + body);
    let end = mark + body;
    assert(end[0] == 45 && end[1] == 10);
    lemma_position_is(end, 10, 1);
    assert(end.take(1) == seq![45u8]);
    assert(end.skip(2) == body);
    assert(read_fields(end) == Some((Seq::<(Seq<u8>, Seq<u8>)>::empty(), body)));
    assert(in_lower_case(fields) + Seq::<(Seq<u8>, Seq<u8>)>::empty() == in_lower_case(fields));
}

proof fn lemma_fields_were_written(bytes: Seq<u8>) -> (fields: Fields)
    requires
        read_fields(bytes) is Some,
    ensures
        are_written_fields(fields),
        read_fields(bytes).unwrap().0 == in_lower_case(fields),
        bytes == encode_fields(fields) + seq![45u8, 10u8] + read_fields(bytes).unwrap().1,
    decreases bytes.len(),
{
    let end = position(bytes, 10) as int;
    let line = bytes.take(end);
    let rest = bytes.skip(end + 1);
    lemma_position(bytes, 10);
    if line == seq![45u8] {
        let none = Seq::<(Seq<u8>, Seq<u8>)>::empty();
        assert(line.len() == 1);
        assert(bytes[0] == line[0]);
        assert(bytes == encode_fields(none) + seq![45u8, 10u8] + rest);
        assert(in_lower_case(none) == none);
        none
    } else {
        let further = lemma_fields_were_written(rest);
        let colon = position(line, 58) as int;
        lemma_position(line, 58);
        let field = (line.take(colon), line.skip(colon + 1));
        let fields = seq![field] + further;
        assert(fields.drop_first() == further);
        lemma_encode_fields_front(fields);
        assert(line == field.0 + seq![58u8] + field.1);
        assert(bytes == line + seq![10u8] + rest);
        assert(bytes == encode_fields(fields) + seq![45u8, 10u8] + read_fields(rest).unwrap().1);
        assert forall|i: int| 0 <= i < fields.len() implies is_header_name(
            (#[trigger] fields[i]).0,
        ) && is_header_value(fields[i].1) by {
            if i > 0 {
                assert(fields[i] == further[i - 1]);
            }
        }
        assert(in_lower_case(fields) == seq![field_of_line(line)] + in_lower_case(further));
        fields
    }
}

/// Nothing else is read as an entry: bytes that are read begin with the digits of
/// the status that was read, go on with the fields that were read, their names in
/// either case, and the line `-`, and end in the body that was read.
pub proof fn law_only_written_entries_are_read(bytes: Seq<u8>)
    ensures
        read_entry(bytes) matches Some(entry) ==> {
            &&& 100 <= entry.status <= 999
            &&& exists|fields: Fields|
                {
                    &&& #[trigger] are_written_fields(fields)
                    &&& entry.fields == in_lower_case(fields)
                    &&& bytes == status_digits(entry.status) + seq![10u8] + encode_fields(fields)
                        + seq![45u8, 10u8] + entry.body
                }
        },
{
    if let Some(entry) = read_entry(bytes) {
        let end = position(bytes, 10) as int;
        lemma_position(bytes, 10);
        law_status_text_reads_back(bytes.take(end));
        let fields = lemma_fields_were_written(bytes.skip(end + 1));
        assert(bytes == bytes.take(end) + seq![10u8] + bytes.skip(end + 1));
        assert(bytes == status_digits(entry.status) + seq![10u8] + encode_fields(fields) + seq![
            45u8,
            10u8,
        ] + entry.body);
    }
}

/// An entry with fewer than 6553 fields can always be replayed.
pub proof fn law_few_fields_are_decodable(bytes: Seq<u8>)
    ensures
        is_decodable(bytes) ==> read_entry(bytes) is Some,
        read_entry(bytes) matches Some(entry) && entry.fields.len() < 6553 ==> is_decodable(bytes),
{
    if let Some(entry) = read_entry(bytes) {
        if entry.fields.len() < 6553 {
            let more = entry.fields.push((cache_header_name(), Seq::<u8>::empty()));
            law_few_fields_have_room(more);
            lemma_field_names_push(entry.fields, (cache_header_name(), Seq::<u8>::empty()));
        }
    }
}

/// Without fields, a response from the cache says `hit` and nothing else; each
/// further field is set in turn.
pub proof fn law_replay_sets_fields_in_turn(fields: Fields, field: (Seq<u8>, Seq<u8>))
    ensures
        replayed_fields(Seq::<(Seq<u8>, Seq<u8>)>::empty()) == seq![
            (ascii("x-crap-cache"@), ascii("hit"@)),
        ],
        replayed_fields(fields.push(field)) == with_field(
            replayed_fields(fields),
            field.0,
            field.1,
        ),
{
    assert(fields.push(field).drop_last() == fields);
}

} // verus!
