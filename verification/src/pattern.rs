//! The two fixed forms of a start time: `YYYYMMDDTHHMMSS`, and the same
//! followed by `Z`.

use crate::civil::CivilDateTime;
use vstd::prelude::*;
use vstd::string::StringSliceAdditionalSpecFns;

verus! {

/// Whether `c` is one of the digits `0` to `9`.
pub open spec fn is_digit(c: char) -> bool {
    '0' <= c <= '9'
}

/// The value of the digit `c`.
pub open spec fn digit_value(c: char) -> int {
    c as int - 48
}

/// The number that the two digits of `text` from `at` on write.
pub open spec fn two_digits(text: Seq<char>, at: int) -> int {
    10 * digit_value(text[at]) + digit_value(text[at + 1])
}

/// The number that the four digits of `text` from `at` on write.
pub open spec fn four_digits(text: Seq<char>, at: int) -> int {
    100 * two_digits(text, at) + two_digits(text, at + 2)
}

/// Whether `text` starts with eight digits, a `T` and six digits.
pub open spec fn has_shape(text: Seq<char>) -> bool {
    &&& text.len() >= 15
    &&& text[8] == 'T'
    &&& forall|i: int| 0 <= i < 15 && i != 8 ==> is_digit(#[trigger] text[i])
}

/// The fields that a text of the shape writes: year, month, day, `T`,
/// hour, minute, second.
pub open spec fn written_fields(text: Seq<char>) -> CivilDateTime {
    CivilDateTime {
        year: four_digits(text, 0) as u16,
        month: two_digits(text, 4) as u8,
        day: two_digits(text, 6) as u8,
        hour: two_digits(text, 9) as u8,
        minute: two_digits(text, 11) as u8,
        second: two_digits(text, 13) as u8,
    }
}

/// What a text in the form `YYYYMMDDTHHMMSS` writes; `None` for any other
/// text.
pub open spec fn local_form(text: Seq<char>) -> Option<CivilDateTime> {
    if text.len() == 15 && has_shape(text) {
        Some(written_fields(text))
    } else {
        None
    }
}

/// What a text in the form `YYYYMMDDTHHMMSSZ` writes; `None` for any other
/// text.
pub open spec fn utc_form(text: Seq<char>) -> Option<CivilDateTime> {
    if text.len() == 16 && has_shape(text) && text[15] == 'Z' {
        Some(written_fields(text))
    } else {
        None
    }
}

/// The fields that a text of the shape writes are the numbers its digits
/// spell, each in the range of its width.
pub proof fn lemma_written_fields(text: Seq<char>)
    requires
        has_shape(text),
    ensures
        written_fields(text).year == four_digits(text, 0) <= 9_999,
        written_fields(text).month == two_digits(text, 4) <= 99,
        written_fields(text).day == two_digits(text, 6) <= 99,
        written_fields(text).hour == two_digits(text, 9) <= 99,
        written_fields(text).minute == two_digits(text, 11) <= 99,
        written_fields(text).second == two_digits(text, 13) <= 99,
{
    assert(is_digit(text[0]) && is_digit(text[1]) && is_digit(text[2]) && is_digit(text[3]));
    assert(is_digit(text[4]) && is_digit(text[5]) && is_digit(text[6]) && is_digit(text[7]));
    assert(is_digit(text[9]) && is_digit(text[10]) && is_digit(text[11]) && is_digit(text[12]));
    assert(is_digit(text[13]) && is_digit(text[14]));
}

/// The value of the two digits of `bytes` from `at` on.
fn read_two(bytes: &[u8], at: usize) -> (value: u8)
    requires
        at + 1 < bytes.len(),
        48 <= bytes[at as int] <= 57,
        48 <= bytes[at + 1] <= 57,
    ensures
        value == 10 * (bytes[at as int] - 48) + (bytes[at + 1] - 48),
{
    10 * (bytes[at] - 48) + (bytes[at + 1] - 48)
}

/// Reads `text` in the form `YYYYMMDDTHHMMSS`, followed by `Z` where
/// `zulu` is set.
fn read_form(text: &str, zulu: bool) -> (fields: Option<CivilDateTime>)
    ensures
        fields == if zulu {
            utc_form(text@)
        } else {
            local_form(text@)
        },
{
    broadcast use vstd::string::is_ascii_spec_bytes;

    if !text.is_ascii() {
        assert(!has_shape(text@) || text@.len() > 16 || (text@.len() == 16 && text@[15] != 'Z'))
            by {
            if has_shape(text@) && (text@.len() == 15 || (text@.len() == 16 && text@[15] == 'Z')) {
                assert forall|i: int| 0 <= i < text@.len() implies '\0' <= #[trigger] text@[i]
                    <= '\u{7f}' by {
                    if i != 8 && i < 15 {
                        assert(is_digit(text@[i]));
                    }
                }
            }
        }
        return None;
    }
    let bytes = text.as_bytes();
    let length: usize = if zulu {
        16
    } else {
        15
    };
    if bytes.len() != length {
        return None;
    }
    assert(forall|i: int| 0 <= i < bytes.len() ==> bytes[i] == text@[i] as u8);
    let mut at: usize = 0;
    while at < 15
        invariant
            at <= 15,
            bytes.len() >= 15,
            bytes.len() == text@.len(),
            forall|i: int| 0 <= i < bytes.len() ==> bytes[i] == text@[i] as u8,
            forall|i: int| 0 <= i < bytes.len() ==> '\0' <= #[trigger] text@[i] <= '\u{7f}',
            forall|i: int| 0 <= i < at && i != 8 ==> 48 <= #[trigger] bytes[i] <= 57,
            at > 8 ==> bytes[8] == 84,
        decreases 15 - at,
    {
        let byte = bytes[at];
        if at == 8 {
            if byte != 84 {
                assert(text@[8] != 'T');
                return None;
            }
        } else if byte < 48 || byte > 57 {
            assert(!is_digit(text@[at as int]));
            return None;
        }
        at += 1;
    }
    if zulu && bytes[15] != 90 {
        assert(text@[15] != 'Z');
        return None;
    }
    assert(has_shape(text@)) by {
        assert(text@[8] == 'T');
        assert forall|i: int| 0 <= i < 15 && i != 8 implies is_digit(#[trigger] text@[i]) by {
            assert(48 <= bytes[i] <= 57);
        }
    }
    proof {
        lemma_written_fields(text@);
    }
    let year: u16 = 100 * (read_two(bytes, 0) as u16) + read_two(bytes, 2) as u16;
    Some(
        CivilDateTime {
            year,
            month: read_two(bytes, 4),
            day: read_two(bytes, 6),
            hour: read_two(bytes, 9),
            minute: read_two(bytes, 11),
            second: read_two(bytes, 13),
        },
    )
}

/// Reads a text in the form `YYYYMMDDTHHMMSS`.
pub fn read_local_form(text: &str) -> (fields: Option<CivilDateTime>)
    ensures
        fields == local_form(text@),
{
    read_form(text, false)
}

/// Reads a text in the form `YYYYMMDDTHHMMSSZ`.
pub fn read_utc_form(text: &str) -> (fields: Option<CivilDateTime>)
    ensures
        fields == utc_form(text@),
{
    read_form(text, true)
}

} // verus!
