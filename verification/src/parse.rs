//! Reading amounts and colours from text.
//!
//! The grammar is stated over the UTF-8 bytes of the text; every byte it
//! names is ASCII, so each stands for the character of the same code.

use vstd::prelude::*;
use vstd::utf8::encode_utf8;

verus! {

/// The byte of `+`.
pub const PLUS: u8 = 43;

/// The byte of `$`.
pub const DOLLAR: u8 = 36;

/// The byte of `,`.
pub const COMMA: u8 = 44;

/// The byte of `0`.
pub const ZERO: u8 = 48;

/// The byte of `9`.
pub const NINE: u8 = 57;

/// Whether every byte is a decimal digit.
pub open spec fn all_digits(digits: Seq<u8>) -> bool {
    forall|i: int| 0 <= i < digits.len() ==> ZERO <= #[trigger] digits[i] <= NINE
}

/// The number that decimal digits write.
pub open spec fn digits_value(digits: Seq<u8>) -> int
    decreases digits.len(),
{
    if digits.len() == 0 {
        0
    } else {
        10 * digits_value(digits.drop_last()) + (digits.last() - ZERO)
    }
}

/// The text without one leading `+`.
pub open spec fn unsigned_part(text: Seq<u8>) -> Seq<u8> {
    if text.len() > 0 && text[0] == PLUS {
        text.subrange(1, text.len() as int)
    } else {
        text
    }
}

/// The number that `text` writes, if it is one up to `max`: decimal digits,
/// at least one, after at most one `+`. Nothing else may stand in the text.
pub open spec fn number_of(text: Seq<u8>, max: int) -> Option<int> {
    let digits = unsigned_part(text);
    if digits.len() > 0 && all_digits(digits) && digits_value(digits) <= max {
        Some(digits_value(digits))
    } else {
        None
    }
}

/// The amount that `text` writes: a number that fits 32 bits, after at most
/// one `$`.
pub open spec fn amount_of(text: Seq<u8>) -> Option<int> {
    if text.len() > 0 && text[0] == DOLLAR {
        number_of(text.subrange(1, text.len() as int), u32::MAX as int)
    } else {
        number_of(text, u32::MAX as int)
    }
}

/// Where the field that starts at `from` ends: at the next comma, or at the
/// end of the text.
pub open spec fn field_end(text: Seq<u8>, from: int) -> int
    decreases text.len() - from,
{
    if from < 0 || from >= text.len() {
        text.len() as int
    } else if text[from] == COMMA {
        from
    } else {
        field_end(text, from + 1)
    }
}

/// One channel: the number up to 255 that stands from `from` to the end of
/// its field.
pub open spec fn channel_of(text: Seq<u8>, from: int) -> Option<int> {
    number_of(text.subrange(from, field_end(text, from)), 255)
}

/// The colour that `text` writes: its first four fields, set apart by
/// commas, are the red, green, blue and alpha channels. Each is a number up
/// to 255. The first three must be there; without a fourth, alpha is 255.
/// Further fields are not read.
pub open spec fn rgba_of(text: Seq<u8>) -> Option<Seq<u8>> {
    let green_from = field_end(text, 0) + 1;
    let blue_from = field_end(text, green_from) + 1;
    let alpha_from = field_end(text, blue_from) + 1;
    let red = channel_of(text, 0);
    let green = channel_of(text, green_from);
    let blue = channel_of(text, blue_from);
    let alpha = if alpha_from <= text.len() {
        channel_of(text, alpha_from)
    } else {
        Some(255int)
    };
    if blue_from <= text.len() && red.is_some() && green.is_some() && blue.is_some()
        && alpha.is_some() {
        Some(
            seq![
                red.unwrap() as u8,
                green.unwrap() as u8,
                blue.unwrap() as u8,
                alpha.unwrap() as u8,
            ],
        )
    } else {
        None
    }
}

/// The value of digits is not negative, and no prefix of them is worth more
/// than all of them.
pub proof fn lemma_digits_grow(digits: Seq<u8>, k: int)
    requires
        all_digits(digits),
        0 <= k <= digits.len(),
    ensures
        0 <= digits_value(digits.take(k)) <= digits_value(digits),
    decreases digits.len(),
{
    if digits.len() == 0 {
        assert(digits.take(k) =~= digits);
    } else {
        let front = digits.drop_last();
        assert forall|i: int| 0 <= i < front.len() implies ZERO <= #[trigger] front[i] <= NINE by {
            assert(front[i] == digits[i]);
        }
        assert(ZERO <= digits[digits.len() - 1] <= NINE);
        if k == digits.len() {
            assert(digits.take(k) =~= digits);
            lemma_digits_grow(front, k - 1);
            assert(front.take(k - 1) =~= front.take(front.len() as int));
            lemma_digits_grow(front, front.len() as int);
            assert(front.take(front.len() as int) =~= front);
        } else {
            lemma_digits_grow(front, k);
            assert(front.take(k) =~= digits.take(k));
        }
    }
}

/// Reads the number that stands in `bytes` from `from` up to `to`.
pub fn parse_number(bytes: &[u8], from: usize, to: usize, max: u32) -> (number: Option<u32>)
    requires
        from <= to <= bytes@.len(),
    ensures
        match number {
            Some(n) => number_of(bytes@.subrange(from as int, to as int), max as int) == Some(
                n as int,
            ),
            None => number_of(bytes@.subrange(from as int, to as int), max as int).is_none(),
        },
{
    let ghost text = bytes@.subrange(from as int, to as int);
    let mut i: usize = from;
    if i < to && bytes[i] == PLUS {
        i = i + 1;
    }
    let first: usize = i;
    let ghost digits = bytes@.subrange(first as int, to as int);
    assert(digits =~= unsigned_part(text));
    if i == to {
        return None;
    }
    let mut value: u64 = 0;
    while i < to
        invariant
            first <= i <= to <= bytes@.len(),
            from <= first < to,
            text == bytes@.subrange(from as int, to as int),
            digits == bytes@.subrange(first as int, to as int),
            digits == unsigned_part(text),
            all_digits(digits.take(i - first)),
            value == digits_value(digits.take(i - first)),
            value <= max,
        decreases to - i,
    {
        let byte: u8 = bytes[i];
        let ghost seen = digits.take(i - first + 1);
        proof {
            assert(seen.drop_last() =~= digits.take(i - first));
            assert(seen.last() == byte);
        }
        if byte < ZERO || byte > NINE {
            assert(digits[i - first] == byte);
            return None;
        }
        value = value * 10 + (byte - ZERO) as u64;
        proof {
            assert forall|k: int| 0 <= k < seen.len() implies ZERO <= #[trigger] seen[k]
                <= NINE by {
                if k < seen.len() - 1 {
                    assert(seen[k] == digits.take(i - first)[k]);
                }
            }
        }
        if value > max as u64 {
            proof {
                if all_digits(digits) {
                    lemma_digits_grow(digits, i - first + 1);
                }
            }
            return None;
        }
        i = i + 1;
    }
    assert(digits.take(i - first) =~= digits);
    Some(value as u32)
}

/// Finds where the field that starts at `from` ends.
pub fn find_field_end(bytes: &[u8], from: usize) -> (end: usize)
    requires
        from <= bytes@.len(),
    ensures
        end == field_end(bytes@, from as int),
        from <= end <= bytes@.len(),
{
    let mut i: usize = from;
    while i < bytes.len() && bytes[i] != COMMA
        invariant
            from <= i <= bytes@.len(),
            field_end(bytes@, from as int) == field_end(bytes@, i as int),
        decreases bytes@.len() - i,
    {
        i = i + 1;
    }
    i
}

/// Reads an amount of money: a whole number up to 4294967295, which a `$`
/// may precede. Anything else gives `None`.
pub fn parse_amount(text: String) -> (amount: Option<u32>)
    ensures
        match amount {
            Some(n) => amount_of(encode_utf8(text@)) == Some(n as int),
            None => amount_of(encode_utf8(text@)).is_none(),
        },
{
    let bytes = text.as_str().as_bytes();
    assert(bytes@.subrange(0, bytes@.len() as int) =~= bytes@);
    if bytes.len() > 0 && bytes[0] == DOLLAR {
        parse_number(bytes, 1, bytes.len(), u32::MAX)
    } else {
        parse_number(bytes, 0, bytes.len(), u32::MAX)
    }
}

/// Reads one channel of a colour, which starts at `from`.
fn parse_channel(bytes: &[u8], from: usize) -> (channel: Option<u8>)
    requires
        from <= bytes@.len(),
    ensures
        match channel {
            Some(c) => channel_of(bytes@, from as int) == Some(c as int),
            None => channel_of(bytes@, from as int).is_none(),
        },
{
    let end = find_field_end(bytes, from);
    match parse_number(bytes, from, end, 255) {
        Some(n) => Some(n as u8),
        None => None,
    }
}

/// Reads a colour: three or four numbers up to 255, set apart by commas, for
/// red, green, blue and alpha. Without the fourth, alpha is 255. Anything
/// else gives `None`, but fields after the fourth are not read.
pub fn parse_rgba(text: String) -> (rgba: Option<[u8; 4]>)
    ensures
        match rgba {
            Some(channels) => rgba_of(encode_utf8(text@)) == Some(channels@),
            None => rgba_of(encode_utf8(text@)).is_none(),
        },
{
    let bytes = text.as_str().as_bytes();
    let len = bytes.len();
    let red_end = find_field_end(bytes, 0);
    if red_end >= len {
        return None;
    }
    let green_end = find_field_end(bytes, red_end + 1);
    if green_end >= len {
        return None;
    }
    let blue_end = find_field_end(bytes, green_end + 1);
    let red = match parse_channel(bytes, 0) {
        Some(c) => c,
        None => return None,
    };
    let green = match parse_channel(bytes, red_end + 1) {
        Some(c) => c,
        None => return None,
    };
    let blue = match parse_channel(bytes, green_end + 1) {
        Some(c) => c,
        None => return None,
    };
    let alpha = if blue_end < len {
        match parse_channel(bytes, blue_end + 1) {
            Some(c) => c,
            None => return None,
        }
    } else {
        255
    };
    let channels: [u8; 4] = [red, green, blue, alpha];
    assert(channels@ =~= seq![red, green, blue, alpha]);
    Some(channels)
}

} // verus!
