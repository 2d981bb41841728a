//! Byte and text helpers: substring search, decimal numbers, ASCII literals.

use vstd::prelude::*;
use vstd::slice::slice_subrange;

verus! {

/// The bytes of an ASCII text, one for each character.
pub open spec fn ascii(text: Seq<char>) -> Seq<u8> {
    Seq::new(text.len(), |i: int| text[i] as u8)
}

/// `needle` stands in `hay` from index `at` on.
pub open spec fn occurs_at(hay: Seq<u8>, needle: Seq<u8>, at: int) -> bool {
    &&& 0 <= at <= hay.len() - needle.len()
    &&& hay.subrange(at, at + needle.len()) == needle
}

/// `needle` is a contiguous part of `hay`.
pub open spec fn occurs_in(hay: Seq<u8>, needle: Seq<u8>) -> bool {
    exists|at: int| occurs_at(hay, needle, at)
}

/// The index of the first `byte` in `bytes`, or the length where there is none.
pub open spec fn position(bytes: Seq<u8>, byte: u8) -> nat
    decreases bytes.len(),
{
    if bytes.len() == 0 || bytes[0] == byte {
        0
    } else {
        1 + position(bytes.drop_first(), byte)
    }
}

/// The value of a run of decimal digits.
pub open spec fn digits_value(digits: Seq<u8>) -> nat
    decreases digits.len(),
{
    if digits.len() == 0 {
        0
    } else {
        digits_value(digits.drop_last()) * 10 + (digits.last() - 48) as nat
    }
}

/// Every byte is a decimal digit.
pub open spec fn all_digits(digits: Seq<u8>) -> bool {
    forall|i: int| 0 <= i < digits.len() ==> 48 <= #[trigger] digits[i] <= 57
}

/// The digits of a number as text: what follows an optional leading `+`.
pub open spec fn unsigned_part(text: Seq<u8>) -> Seq<u8> {
    if text.len() > 0 && text[0] == 43 {
        text.drop_first()
    } else {
        text
    }
}

/// The `usize` that a text denotes: an optional `+`, then one or more decimal
/// digits whose value fits.
pub open spec fn usize_of_text(text: Seq<u8>) -> Option<usize> {
    let digits = unsigned_part(text);
    if digits.len() > 0 && all_digits(digits) && digits_value(digits) <= usize::MAX {
        Some(digits_value(digits) as usize)
    } else {
        None
    }
}

/// The character of one decimal digit.
pub open spec fn digit_char(digit: nat) -> char {
    "0123456789"@[digit as int]
}

/// A number in decimal notation, without leading zeros.
pub open spec fn decimal(n: nat) -> Seq<char>
    decreases n,
{
    if n < 10 {
        seq![digit_char(n)]
    } else {
        decimal(n / 10).push(digit_char(n % 10))
    }
}

/// `position` is the one index with nothing equal before it and the byte, or
/// the end, at it.
pub proof fn lemma_position(bytes: Seq<u8>, byte: u8)
    ensures
        position(bytes, byte) <= bytes.len(),
        position(bytes, byte) < bytes.len() ==> bytes[position(bytes, byte) as int] == byte,
        forall|i: int| 0 <= i < position(bytes, byte) ==> bytes[i] != byte,
    decreases bytes.len(),
{
    if bytes.len() > 0 && bytes[0] != byte {
        let rest = bytes.drop_first();
        lemma_position(rest, byte);
        assert forall|i: int| 0 <= i < position(bytes, byte) implies bytes[i] != byte by {
            if i > 0 {
                assert(rest[i - 1] == bytes[i]);
            }
        }
    }
}

/// An index with the byte, or the end, at it and nothing equal before it is
/// `position`.
pub proof fn lemma_position_is(bytes: Seq<u8>, byte: u8, at: int)
    requires
        0 <= at <= bytes.len(),
        at < bytes.len() ==> bytes[at] == byte,
        forall|i: int| 0 <= i < at ==> bytes[i] != byte,
    ensures
        position(bytes, byte) == at,
{
    lemma_position(bytes, byte);
    if position(bytes, byte) < at {
        assert(bytes[position(bytes, byte) as int] != byte);
    }
}

/// Leading digits never make a number smaller.
proof fn lemma_digits_value_prefix(digits: Seq<u8>, n: int)
    requires
        0 <= n <= digits.len(),
    ensures
        digits_value(digits.take(n)) <= digits_value(digits),
    decreases digits.len() - n,
{
    if n == digits.len() {
        assert(digits.take(n) == digits);
    } else {
        lemma_digits_value_prefix(digits, n + 1);
        assert(digits.take(n + 1).drop_last() == digits.take(n));
    }
}

/// The bytes of an ASCII text.
pub fn ascii_bytes(text: &str) -> (bytes: &[u8])
    requires
        text.is_ascii(),
    ensures
        bytes@ == ascii(text@),
{
    text.as_bytes()
}

/// Whether two byte strings are the same.
pub fn same_bytes(a: &[u8], b: &[u8]) -> (same: bool)
    ensures
        same == (a@ == b@),
{
    if a.len() != b.len() {
        return false;
    }
    for i in 0..a.len()
        invariant
            a.len() == b.len(),
            forall|j: int| 0 <= j < i ==> a[j] == b[j],
    {
        if a[i] != b[i] {
            return false;
        }
    }
    assert(a@ == b@);
    true
}

/// The index of the first `byte`, or the length where there is none.
pub fn find_byte(bytes: &[u8], byte: u8) -> (at: usize)
    ensures
        at == position(bytes@, byte),
        at <= bytes.len(),
{
    let mut at: usize = 0;
    while at < bytes.len() && bytes[at] != byte
        invariant
            at <= bytes.len(),
            forall|i: int| 0 <= i < at ==> bytes[i] != byte,
        decreases bytes.len() - at,
    {
        at += 1;
    }
    proof {
        lemma_position_is(bytes@, byte, at as int);
    }
    at
}

/// Whether `needle` is a contiguous part of `hay`.
pub fn contains(hay: &[u8], needle: &[u8]) -> (found: bool)
    ensures
        found == occurs_in(hay@, needle@),
{
    if needle.len() > hay.len() {
        return false;
    }
    let last: usize = hay.len() - needle.len();
    let mut at: usize = 0;
    while at <= last
        invariant
            needle.len() <= hay.len(),
            last == hay.len() - needle.len(),
            at <= last + 1,
            forall|i: int| 0 <= i < at ==> !occurs_at(hay@, needle@, i),
        decreases last + 1 - at,
    {
        if same_bytes(slice_subrange(hay, at, at + needle.len()), needle) {
            assert(occurs_at(hay@, needle@, at as int));
            return true;
        }
        if at == last {
            assert(!occurs_in(hay@, needle@));
            return false;
        }
        at += 1;
    }
    false
}

/// Reads a `usize` from text: an optional `+`, then decimal digits.
pub fn parse_usize(text: &[u8]) -> (number: Option<usize>)
    ensures
        number == usize_of_text(text@),
{
    let start: usize = if text.len() > 0 && text[0] == 43 {
        1
    } else {
        0
    };
    let digits = slice_subrange(text, start, text.len());
    assert(digits@ == unsigned_part(text@));
    if digits.len() == 0 {
        return None;
    }
    let mut value: usize = 0;
    for i in 0..digits.len()
        invariant
            value == digits_value(digits@.take(i as int)),
            forall|j: int| 0 <= j < i ==> 48 <= #[trigger] digits[j] <= 57,
            digits@ == unsigned_part(text@),
    {
        let byte: u8 = digits[i];
        if byte < 48 || byte > 57 {
            assert(!all_digits(digits@));
            return None;
        }
        proof {
            lemma_digits_value_prefix(digits@, i + 1);
            assert(digits@.take(i + 1).drop_last() == digits@.take(i as int));
        }
        let digit: usize = (byte - 48) as usize;
        if value > (usize::MAX - digit) / 10 {
            return None;
        }
        value = value * 10 + digit;
    }
    assert(digits@.take(digits.len() as int) == digits@);
    Some(value)
}

/// Appends a number in decimal notation.
pub fn push_decimal(out: &mut String, n: u16)
    ensures
        final(out)@ == old(out)@ + decimal(n as nat),
    decreases n,
{
    proof {
        reveal_strlit("0123456789");
    }
    let last: usize = (n % 10) as usize;
    if n >= 10 {
        push_decimal(out, n / 10);
    }
    let digit = "0123456789".substring_ascii(last, last + 1);
    out.append(digit);
    assert(out@ == old(out)@ + decimal(n as nat));
}

/// A text occurs in another exactly where the other is made of something, that
/// text, and something more.
pub proof fn law_occurs_in(hay: Seq<u8>, needle: Seq<u8>)
    ensures
        occurs_in(hay, needle) <==> exists|before: Seq<u8>, after: Seq<u8>|
            hay == #[trigger] (before + needle + after),
{
    if occurs_in(hay, needle) {
        let at = choose|at: int| occurs_at(hay, needle, at);
        let before = hay.take(at);
        let after = hay.skip(at + needle.len());
        assert(hay.subrange(at, at + needle.len()) == needle);
        assert(hay == before + needle + after);
    }
    if exists|before: Seq<u8>, after: Seq<u8>| hay == #[trigger] (before + needle + after) {
        let (before, after) = choose|before: Seq<u8>, after: Seq<u8>|
            hay == #[trigger] (before + needle + after);
        let at = before.len() as int;
        assert(hay.subrange(at, at + needle.len()) == needle);
        assert(occurs_at(hay, needle, at));
    }
}

/// Texts one after the other have their bytes one after the other, one for each
/// character.
pub proof fn law_ascii(text: Seq<char>, further: Seq<char>, c: char)
    ensures
        ascii(text + further) == ascii(text) + ascii(further),
        ascii(seq![c]) == seq![c as u8],
        ascii(text).len() == text.len(),
{
    assert(ascii(text + further) == ascii(text) + ascii(further));
    assert(ascii(seq![c]) == seq![c as u8]);
}

/// What a number grows by with one digit more: ten times as much, and the digit,
/// as long as that fits. A first digit is the number.
pub proof fn law_number_grows_by_digit(text: Seq<u8>, digit: u8)
    requires
        digit <= 9,
    ensures
        usize_of_text(seq![(48 + digit) as u8]) == Some(digit as usize),
        usize_of_text(text) matches Some(n) ==> usize_of_text(text.push((48 + digit) as u8))
            == if n * 10 + digit <= usize::MAX {
            Some((n * 10 + digit) as usize)
        } else {
            None
        },
{
    let byte = (48 + digit) as u8;
    let one = seq![byte];
    assert(one.drop_last() == Seq::<u8>::empty());
    assert(digits_value(one.drop_last()) == 0);
    assert(digits_value(one) == digit);
    if usize_of_text(text) is Some {
        let digits = unsigned_part(text);
        let more = text.push(byte);
        assert(more[0] == text[0]);
        assert(unsigned_part(more) == digits.push(byte));
        assert(digits.push(byte).drop_last() == digits);
        assert(all_digits(digits.push(byte)));
    }
}

/// What is no number becomes none by growing, but for a sign alone; and nothing
/// that ends in another character than a digit is one.
pub proof fn law_no_number(text: Seq<u8>, byte: u8)
    ensures
        usize_of_text(Seq::<u8>::empty()) is None,
        text.len() > 0 && text != seq![43u8] && usize_of_text(text) is None ==> usize_of_text(
            text.push(byte),
        ) is None,
        !(48 <= byte <= 57) ==> usize_of_text(text.push(byte)) is None,
{
    let digits = unsigned_part(text);
    let more = text.push(byte);
    assert(more[text.len() as int] == byte);
    if text.len() > 0 {
        assert(more[0] == text[0]);
        assert(unsigned_part(more) == digits.push(byte));
        let grown = digits.push(byte);
        assert(grown.drop_last() == digits);
        assert(grown[digits.len() as int] == byte);
        if text != seq![43u8] && usize_of_text(text) is None && all_digits(grown) {
            assert forall|i: int| 0 <= i < digits.len() implies 48 <= #[trigger] digits[i]
                <= 57 by {
                assert(grown[i] == digits[i]);
            }
            if digits.len() == 0 {
                assert(text.len() == 1);
                assert(text == seq![43u8]);
            }
            assert(digits_value(grown) >= digits_value(digits));
        }
    } else {
        assert(more.len() == 1);
        if byte != 43 {
            assert(unsigned_part(more)[0] == byte);
        }
    }
}

/// One sign in front changes nothing; a second is none.
pub proof fn law_number_may_have_sign(text: Seq<u8>)
    requires
        text.len() > 0,
    ensures
        usize_of_text(seq![43u8] + text) == if text[0] == 43 {
            None
        } else {
            usize_of_text(text)
        },
{
    let signed = seq![43u8] + text;
    assert(signed.drop_first() == text);
    if text[0] == 43 {
        assert(!all_digits(text));
    }
}

proof fn lemma_decimal(n: nat)
    ensures
        decimal(n).len() > 0,
        all_digits(ascii(decimal(n))),
        digits_value(ascii(decimal(n))) == n,
        decimal(n)[0] == '0' ==> n == 0,
        forall|i: int| 0 <= i < decimal(n).len() ==> '0' <= #[trigger] decimal(n)[i] <= '9',
    decreases n,
{
    reveal_strlit("0123456789");
    let bytes = ascii(decimal(n));
    let last = digit_char(n % 10);
    assert(last as u8 == 48 + n % 10);
    assert('0' <= last <= '9');
    if n < 10 {
        assert(bytes.drop_last() == Seq::<u8>::empty());
        assert(digits_value(bytes.drop_last()) == 0);
        assert(bytes.last() == 48 + n);
    } else {
        lemma_decimal(n / 10);
        assert(bytes.drop_last() == ascii(decimal(n / 10)));
        assert(bytes.last() == last as u8);
        assert forall|i: int| 0 <= i < bytes.len() implies 48 <= #[trigger] bytes[i] <= 57 by {
            if i < bytes.len() - 1 {
                assert(bytes[i] == ascii(decimal(n / 10))[i]);
            }
        }
        assert(decimal(n)[0] == decimal(n / 10)[0]);
    }
}

/// A number in decimal notation reads as that number, is made of digits, and has
/// no zero in front.
pub proof fn law_decimal_reads_back(n: nat)
    ensures
        n <= usize::MAX ==> usize_of_text(ascii(decimal(n))) == Some(n as usize),
        forall|i: int| 0 <= i < decimal(n).len() ==> '0' <= #[trigger] decimal(n)[i] <= '9',
        decimal(n).len() > 0,
        decimal(n)[0] == '0' ==> n == 0 && decimal(n).len() == 1,
{
    lemma_decimal(n);
    assert(ascii(decimal(n))[0] != 43);
}

} // verus!
