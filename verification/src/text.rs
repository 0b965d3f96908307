//! Decoding of document text strings.
//!
//! A text string in a document is either UTF-16, big-endian, announced by a
//! two-byte marker, or a run of bytes that is read as UTF-8. Decoding never
//! fails: whatever cannot be read as UTF-16 is read as UTF-8, with each
//! invalid sequence replaced.

use vstd::prelude::*;
use vstd::utf8::{decode_utf8, encode_utf8, is_scalar, valid_utf8};

verus! {

/// What `String::from_utf8_lossy` makes of bytes that are not valid UTF-8:
/// the text, with the replacement character in place of each invalid
/// sequence.
pub uninterp spec fn utf8_lossy_text(bytes: Seq<u8>) -> Seq<char>;

/// Bytes read as UTF-8: the text that they encode, and where they encode
/// none, the text with each invalid sequence replaced.
pub open spec fn utf8_text(bytes: Seq<u8>) -> Seq<char> {
    if valid_utf8(bytes) {
        decode_utf8(bytes)
    } else {
        utf8_lossy_text(bytes)
    }
}

/// `String::from_utf8_lossy`: decodes UTF-8 and replaces what is invalid.
/// Valid UTF-8 is decoded as it stands.
#[verifier::external_body]
fn from_utf8_lossy(bytes: &[u8]) -> (r: String)
    ensures
        r@ == (if valid_utf8(bytes@) {
            decode_utf8(bytes@)
        } else {
            utf8_lossy_text(bytes@)
        }),
{
    String::from_utf8_lossy(bytes).into_owned()
}

/// `char::from_u32`: the character with the given code, which there is for
/// every Unicode scalar value and for no other number.
#[verifier::external_body]
fn char_from_u32(code: u32) -> (r: Option<char>)
    ensures
        match r {
            Some(c) => c as u32 == code,
            None => !is_scalar(code),
        },
{
    char::from_u32(code)
}

/// `String::push`: appends one character.
#[verifier::external_body]
pub(crate) fn push_char(text: &mut String, c: char)
    ensures
        final(text)@ == old(text)@.push(c),
{
    text.push(c)
}

/// The bytes begin with the big-endian byte-order mark.
pub open spec fn has_marker(bytes: Seq<u8>) -> bool {
    bytes.len() >= 2 && bytes[0] == 0xFE && bytes[1] == 0xFF
}

/// The 16-bit unit that two bytes make, the high byte first.
pub open spec fn unit_of(high: u8, low: u8) -> u16 {
    (high as int * 256 + low as int) as u16
}

/// The bytes taken two by two as big-endian 16-bit units.
pub open spec fn code_units(bytes: Seq<u8>) -> Seq<u16> {
    Seq::new((bytes.len() / 2) as nat, |i: int| unit_of(bytes[2 * i], bytes[2 * i + 1]))
}

/// The UTF-16 units that a marked string announces: there are some exactly
/// when the marker is present and whole units follow it.
pub open spec fn marked_units(bytes: Seq<u8>) -> Option<Seq<u16>> {
    if has_marker(bytes) && bytes.len() % 2 == 0 {
        Some(code_units(bytes.skip(2)))
    } else {
        None
    }
}

/// The unit is the first half of a pair that stands for one character.
pub open spec fn is_high_surrogate(unit: u16) -> bool {
    0xD800 <= unit <= 0xDBFF
}

/// The unit is the second half of a pair that stands for one character.
pub open spec fn is_low_surrogate(unit: u16) -> bool {
    0xDC00 <= unit <= 0xDFFF
}

/// The code of the character that a pair of surrogates stands for.
pub open spec fn paired(high: u16, low: u16) -> u32 {
    (0x10000 + (high - 0xD800) * 0x400 + (low - 0xDC00)) as u32
}

/// A text with another text behind it, where there is another.
pub open spec fn followed_by(text: Seq<char>, rest: Option<Seq<char>>) -> Option<Seq<char>> {
    match rest {
        Some(rest) => Some(text + rest),
        None => None,
    }
}

/// The text that UTF-16 units stand for. A unit outside the surrogate range
/// is a character by itself, a high surrogate with a low one behind it is
/// one character, and any other surrogate makes the units invalid.
pub open spec fn utf16_text(units: Seq<u16>) -> Option<Seq<char>>
    decreases units.len(),
{
    if units.len() == 0 {
        Some(Seq::empty())
    } else if !is_high_surrogate(units[0]) && !is_low_surrogate(units[0]) {
        followed_by(seq![(units[0] as u32) as char], utf16_text(units.skip(1)))
    } else if is_high_surrogate(units[0]) && units.len() >= 2 && is_low_surrogate(units[1]) {
        followed_by(seq![paired(units[0], units[1]) as char], utf16_text(units.skip(2)))
    } else {
        None
    }
}

/// The text that a document string stands for.
pub open spec fn decoded(bytes: Seq<u8>) -> Seq<char> {
    match marked_units(bytes) {
        Some(units) => match utf16_text(units) {
            Some(text) => text,
            None => utf8_text(bytes),
        },
        None => utf8_text(bytes),
    }
}

/// Units without surrogates stand for one character each.
pub proof fn lemma_utf16_without_surrogates(units: Seq<u16>)
    requires
        forall|i: int|
            0 <= i < units.len() ==> !is_high_surrogate(#[trigger] units[i]) && !is_low_surrogate(
                units[i],
            ),
    ensures
        utf16_text(units) == Some(Seq::new(units.len(), |i: int| (units[i] as u32) as char)),
    decreases units.len(),
{
    if units.len() > 0 {
        lemma_utf16_without_surrogates(units.skip(1));
    }
}

/// Valid UTF-8 never begins with the marker.
pub proof fn lemma_valid_utf8_is_unmarked(bytes: Seq<u8>)
    requires
        valid_utf8(bytes),
    ensures
        !has_marker(bytes),
{
}

/// A string of valid UTF-8 is decoded as the text that it encodes.
pub proof fn lemma_decoded_valid_utf8(bytes: Seq<u8>)
    requires
        valid_utf8(bytes),
    ensures
        decoded(bytes) == decode_utf8(bytes),
{
    lemma_valid_utf8_is_unmarked(bytes);
}

/// Every text comes back from its UTF-8 encoding.
pub proof fn lemma_decoded_of_encoded(text: Seq<char>)
    ensures
        decoded(encode_utf8(text)) == text,
{
    vstd::utf8::encode_utf8_valid_utf8(text);
    vstd::utf8::encode_utf8_decode_utf8(text);
    lemma_decoded_valid_utf8(encode_utf8(text));
}

/// Bytes below 128 are decoded as one character each.
pub proof fn lemma_decoded_ascii(bytes: Seq<u8>)
    requires
        forall|i: int| 0 <= i < bytes.len() ==> #[trigger] bytes[i] < 128,
    ensures
        decoded(bytes) == Seq::new(bytes.len(), |i: int| bytes[i] as char),
{
    let text = Seq::new(bytes.len(), |i: int| bytes[i] as char);
    vstd::utf8::is_ascii_chars_encode_utf8(text);
    assert(encode_utf8(text) =~= bytes);
    lemma_decoded_of_encoded(text);
}

/// A marked string of whole units without surrogates is decoded as one
/// character for each unit.
pub proof fn lemma_decoded_marked(bytes: Seq<u8>)
    requires
        has_marker(bytes),
        bytes.len() % 2 == 0,
        forall|i: int|
            0 <= i < code_units(bytes.skip(2)).len() ==> !is_high_surrogate(
                #[trigger] code_units(bytes.skip(2))[i],
            ) && !is_low_surrogate(code_units(bytes.skip(2))[i]),
    ensures
        decoded(bytes) == Seq::new(
            code_units(bytes.skip(2)).len(),
            |i: int| (code_units(bytes.skip(2))[i] as u32) as char,
        ),
{
    lemma_utf16_without_surrogates(code_units(bytes.skip(2)));
}

/// Reads the UTF-16 units of a marked string. A string without the marker,
/// or with a byte left over after the last whole unit, has none.
pub fn utf16_units(bytes: &[u8]) -> (r: Option<Vec<u16>>)
    ensures
        match r {
            Some(units) => marked_units(bytes@) == Some(units@),
            None => marked_units(bytes@) is None,
        },
{
    let len = bytes.len();
    if len < 2 || bytes[0] != 0xFE || bytes[1] != 0xFF || len % 2 != 0 {
        return None;
    }
    let ghost rest = bytes@.skip(2);
    let count: usize = (len - 2) / 2;
    let mut units: Vec<u16> = Vec::new();
    let mut i: usize = 0;
    while i < count
        invariant
            len == bytes@.len(),
            len >= 2,
            len % 2 == 0,
            count == (len - 2) / 2,
            rest == bytes@.skip(2),
            i <= count,
            units@.len() == i,
            forall|k: int| 0 <= k < i ==> units@[k] == unit_of(rest[2 * k], rest[2 * k + 1]),
        decreases count - i,
    {
        let high: u16 = bytes[2 + 2 * i] as u16;
        let low: u16 = bytes[3 + 2 * i] as u16;
        units.push(high * 256 + low);
        i = i + 1;
    }
    Some(units)
}

/// Decodes UTF-16 units. There is no text where a surrogate stands alone
/// or in the wrong place.
pub fn decode_utf16(units: &[u16]) -> (r: Option<String>)
    ensures
        match r {
            Some(text) => utf16_text(units@) == Some(text@),
            None => utf16_text(units@) is None,
        },
{
    let mut text = String::new();
    let mut i: usize = 0;
    assert(units@.skip(0) =~= units@);
    assert(text@ + utf16_text(units@)->0 =~= utf16_text(units@)->0);
    while i < units.len()
        invariant
            i <= units@.len(),
            utf16_text(units@) == followed_by(text@, utf16_text(units@.skip(i as int))),
        decreases units.len() - i,
    {
        let unit = units[i];
        let ghost here = units@.skip(i as int);
        let ghost before = text@;
        assert(here[0] == unit);
        if unit < 0xD800 || unit > 0xDFFF {
            match char_from_u32(unit as u32) {
                Some(c) => {
                    push_char(&mut text, c);
                    proof {
                        let after = units@.skip(i + 1);
                        assert(here.skip(1) =~= after);
                        vstd::utf8::char_u32_cast(c, unit as u32);
                        match utf16_text(after) {
                            Some(rest) => {
                                assert(before + (seq![c] + rest) =~= text@ + rest);
                            },
                            None => {},
                        }
                    }
                    i = i + 1;
                },
                None => {
                    return None;
                },
            }
        } else if unit <= 0xDBFF && i + 1 < units.len() && 0xDC00 <= units[i + 1] && units[i + 1]
            <= 0xDFFF {
            let low = units[i + 1];
            assert(here[1] == low);
            let code: u32 = 0x10000 + (unit - 0xD800) as u32 * 0x400 + (low - 0xDC00) as u32;
            assert(code == paired(unit, low));
            match char_from_u32(code) {
                Some(c) => {
                    push_char(&mut text, c);
                    proof {
                        let after = units@.skip(i + 2);
                        assert(here.skip(2) =~= after);
                        vstd::utf8::char_u32_cast(c, code);
                        match utf16_text(after) {
                            Some(rest) => {
                                assert(before + (seq![c] + rest) =~= text@ + rest);
                            },
                            None => {},
                        }
                    }
                    i = i + 2;
                },
                None => {
                    return None;
                },
            }
        } else {
            assert(here.len() >= 2 ==> here[1] == units@[i + 1]);
            return None;
        }
    }
    assert(units@.skip(units@.len() as int) =~= Seq::empty());
    assert(text@ + Seq::<char>::empty() =~= text@);
    Some(text)
}

/// Decodes a document string. It never fails: a string that announces
/// UTF-16 and is not valid UTF-16 is read as UTF-8 from its first byte, as a
/// string without the marker is.
pub fn decode(bytes: &[u8]) -> (text: String)
    ensures
        text@ == decoded(bytes@),
{
    match utf16_units(bytes) {
        Some(units) => match decode_utf16(units.as_slice()) {
            Some(text) => text,
            None => from_utf8_lossy(bytes),
        },
        None => from_utf8_lossy(bytes),
    }
}

} // verus!
