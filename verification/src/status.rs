//! HTTP status codes, as numbers from 100 to 999.

use hyper::http::status::InvalidStatusCode;
use hyper::StatusCode;
use vstd::prelude::*;

use crate::text::ascii;

verus! {

/// A number that is a status code.
pub open spec fn is_status(code: u16) -> bool {
    100 <= code <= 999
}

/// The three digits of a status code.
pub open spec fn status_digits(code: u16) -> Seq<u8> {
    seq![
        (48 + code / 100) as u8,
        (48 + code / 10 % 10) as u8,
        (48 + code % 10) as u8,
    ]
}

/// Three digits, the first of them not zero.
pub open spec fn is_status_text(text: Seq<u8>) -> bool {
    &&& text.len() == 3
    &&& 49 <= text[0] <= 57
    &&& 48 <= text[1] <= 57
    &&& 48 <= text[2] <= 57
}

/// The status code that three digits denote.
pub open spec fn status_of_text(text: Seq<u8>) -> u16 {
    ((text[0] - 48) * 100 + (text[1] - 48) * 10 + (text[2] - 48)) as u16
}

/// The digits of a status code denote it.
pub proof fn lemma_status_digits(code: u16)
    requires
        is_status(code),
    ensures
        is_status_text(status_digits(code)),
        status_of_text(status_digits(code)) == code,
{
}

#[verifier::external_type_specification]
#[verifier::external_body]
pub struct ExInvalidStatusCode(InvalidStatusCode);

/// `StatusCode::as_str` writes a status code as its three digits.
#[verifier::external_body]
pub(crate) fn status_text(code: u16) -> (text: String)
    requires
        is_status(code),
    ensures
        text.is_ascii(),
        ascii(text@) == status_digits(code),
{
    StatusCode::from_u16(code).unwrap().as_str().to_string()
}

/// `StatusCode::from_bytes` reads a status code from its three digits, and
/// accepts nothing else.
#[verifier::external_body]
pub(crate) fn status_from_bytes(text: &[u8]) -> (code: Result<u16, InvalidStatusCode>)
    ensures
        code is Ok <==> is_status_text(text@),
        code matches Ok(code) ==> code == status_of_text(text@),
{
    StatusCode::from_bytes(text).map(|code| code.as_u16())
}

/// Three digits that denote a status code are the digits of that code.
pub proof fn law_status_text_reads_back(text: Seq<u8>)
    requires
        is_status_text(text),
    ensures
        100 <= status_of_text(text) <= 999,
        is_status(status_of_text(text)),
        status_digits(status_of_text(text)) == text,
{
    let a = (text[0] - 48) as int;
    let b = (text[1] - 48) as int;
    let c = (text[2] - 48) as int;
    let code = a * 100 + b * 10 + c;
    assert(status_of_text(text) == code);
    assert(code / 100 == a);
    assert(code / 10 == a * 10 + b);
    assert(status_digits(status_of_text(text)) == text);
}

} // verus!
