use crate::error::Error;
use vstd::prelude::*;
use vstd::utf8::{encode_utf8, is_ascii_chars_encode_utf8};

verus! {

/// The byte `-`.
pub const MINUS: u8 = 45;

/// The byte `.`.
pub const POINT: u8 = 46;

/// The byte `0`.
pub const ZERO: u8 = 48;

/// Whether a byte is one of the decimal digits `0` to `9`.
pub open spec fn is_digit(b: u8) -> bool {
    ZERO <= b <= ZERO + 9
}

/// Whether a text holds decimal digits only.
pub open spec fn all_digits(text: Seq<u8>) -> bool {
    forall|i: int| 0 <= i < text.len() ==> is_digit(#[trigger] text[i])
}

/// The number that a run of decimal digits writes in base ten.
pub open spec fn digits_value(digits: Seq<u8>) -> int
    decreases digits.len(),
{
    if digits.len() == 0 {
        0
    } else {
        10 * digits_value(digits.drop_last()) + (digits.last() - ZERO)
    }
}

/// The test that every byte but the decimal point passes.
pub open spec fn not_point() -> spec_fn(u8) -> bool {
    |b: u8| b != POINT
}

/// A text with its decimal points taken out.
pub open spec fn without_points(text: Seq<u8>) -> Seq<u8> {
    text.filter(not_point())
}

/// Whether a text starts with the sign `-`.
pub open spec fn is_negative(text: Seq<u8>) -> bool {
    text.len() > 0 && text[0] == MINUS
}

/// A text behind its sign, where it has one.
pub open spec fn digits_part(text: Seq<u8>) -> Seq<u8> {
    if is_negative(text) {
        text.drop_first()
    } else {
        text
    }
}

/// The integer that a text writes: an optional `-`, then one decimal digit
/// or more and nothing else. Leading zeros count for nothing.
pub open spec fn signed_value(text: Seq<u8>) -> Option<int> {
    let digits = digits_part(text);
    if digits.len() > 0 && all_digits(digits) {
        Some(
            if is_negative(text) {
                -digits_value(digits)
            } else {
                digits_value(digits)
            },
        )
    } else {
        None
    }
}

/// What a value text decodes to. The decimal point carries no information,
/// since one digit follows it: the text without it is read as an integer,
/// which is ten times the decimal. The text is malformed where it holds more
/// than one point, where the rest is no integer, and where the integer is not
/// an `i16`.
pub open spec fn decoded(text: Seq<u8>) -> Result<i16, Error> {
    let stripped = without_points(text);
    match signed_value(stripped) {
        Some(value) => if text.len() - stripped.len() <= 1 && i16::MIN <= value <= i16::MAX {
            Ok(value as i16)
        } else {
            Err(Error::MalformedRecord)
        },
        None => Err(Error::MalformedRecord),
    }
}

/// The digits of a natural number in base ten, without leading zeros.
pub open spec fn decimal(n: nat) -> Seq<u8>
    decreases n,
{
    if n < 10 {
        seq![(ZERO + n) as u8]
    } else {
        decimal(n / 10).push((ZERO + n % 10) as u8)
    }
}

/// A decimal as text: the digits `whole`, a point and the digit `tenth`, with
/// a `-` before them where the decimal is negative.
pub open spec fn decimal_text(negative: bool, whole: Seq<u8>, tenth: u8) -> Seq<u8> {
    let unsigned = whole.push(POINT).push(tenth);
    if negative {
        seq![MINUS] + unsigned
    } else {
        unsigned
    }
}

/// The fixed-point integer of a decimal: ten times what its digits before
/// the point write, plus the digit behind the point, with its sign.
pub open spec fn decimal_value(negative: bool, whole: Seq<u8>, tenth: u8) -> int {
    let magnitude = 10 * digits_value(whole) + (tenth - ZERO);
    if negative {
        -magnitude
    } else {
        magnitude
    }
}

/// The text of a fixed-point integer: the decimal that is a tenth of it,
/// with one digit behind the point and at least one before it.
pub open spec fn num_text(value: int) -> Seq<u8> {
    let magnitude = if value < 0 {
        -value
    } else {
        value
    };
    decimal_text(value < 0, decimal((magnitude / 10) as nat), (ZERO + magnitude % 10) as u8)
}

/// The characters that a text of ASCII bytes stands for.
pub open spec fn ascii(bytes: Seq<u8>) -> Seq<char> {
    bytes.map_values(|b: u8| b as char)
}

/// Whether a byte can occur in the text of a fixed-point integer.
pub open spec fn is_glyph(b: u8) -> bool {
    is_digit(b) || b == MINUS || b == POINT
}

/// A prefix that a longer text can still decode with: at most one point,
/// digits only behind the sign, and a magnitude that an `i16` can have.
spec fn hopeful(prefix: Seq<u8>) -> bool {
    let stripped = without_points(prefix);
    &&& prefix.len() - stripped.len() <= 1
    &&& all_digits(digits_part(stripped))
    &&& digits_value(digits_part(stripped)) <= 32768
}

/// A run of digits writes no negative number.
proof fn lemma_digits_value_nonnegative(digits: Seq<u8>)
    requires
        all_digits(digits),
    ensures
        digits_value(digits) >= 0,
    decreases digits.len(),
{
    if digits.len() > 0 {
        lemma_digits_value_nonnegative(digits.drop_last());
    }
}

/// What one more byte does to a text without its points, to its sign and to
/// what stands behind the sign.
proof fn lemma_scan_step(prefix: Seq<u8>, b: u8)
    ensures
        b == POINT ==> without_points(prefix.push(b)) == without_points(prefix),
        b != POINT ==> without_points(prefix.push(b)) == without_points(prefix).push(b),
        b == MINUS && without_points(prefix).len() == 0 ==> is_negative(
            without_points(prefix.push(b)),
        ) && digits_part(without_points(prefix.push(b))) == Seq::<u8>::empty(),
        b != POINT && b != MINUS && without_points(prefix).len() == 0 ==> !is_negative(
            without_points(prefix.push(b)),
        ) && digits_part(without_points(prefix.push(b))) == seq![b],
        b != POINT && without_points(prefix).len() > 0 ==> is_negative(
            without_points(prefix.push(b)),
        ) == is_negative(without_points(prefix)) && digits_part(without_points(prefix.push(b)))
            == digits_part(without_points(prefix)).push(b),
{
    prefix.lemma_filter_push(b, not_point());
}

/// One more digit at the end: ten times the number, plus the digit.
proof fn lemma_digits_value_push(digits: Seq<u8>, b: u8)
    ensures
        digits_value(digits.push(b)) == 10 * digits_value(digits) + (b - ZERO),
        all_digits(digits.push(b)) <==> all_digits(digits) && is_digit(b),
{
    let longer = digits.push(b);
    assert(longer.drop_last() =~= digits);
    if all_digits(longer) {
        assert(is_digit(longer[digits.len() as int]));
    }
}

/// A prefix without hope stays so, whatever byte follows.
proof fn lemma_hopeless_step(prefix: Seq<u8>, b: u8)
    requires
        !hopeful(prefix),
    ensures
        !hopeful(prefix.push(b)),
{
    let stripped = without_points(prefix);
    let digits = digits_part(stripped);
    lemma_scan_step(prefix, b);
    if b != POINT && prefix.len() - stripped.len() <= 1 {
        lemma_digits_value_push(digits, b);
        if all_digits(digits) {
            lemma_digits_value_nonnegative(digits);
        }
    }
}

/// A text with a prefix without hope does not decode.
proof fn lemma_hopeless_prefix(text: Seq<u8>, i: int)
    requires
        0 <= i <= text.len(),
        !hopeful(text.take(i)),
    ensures
        decoded(text) is Err,
    decreases text.len() - i,
{
    if i == text.len() {
        assert(text.take(i) =~= text);
    } else {
        lemma_hopeless_step(text.take(i), text[i]);
        assert(text.take(i).push(text[i]) =~= text.take(i + 1));
        lemma_hopeless_prefix(text, i + 1);
    }
}

/// Decodes the value part of a record: a decimal with one digit behind the
/// point becomes the integer that is ten times as large.
///
/// The point is dropped and the rest is read as an integer, an optional `-`
/// and then digits. `0` and `-0` both give 0, and leading zeros are accepted.
/// A text with a second point, with any other byte, with no digit, or with an
/// integer that is no `i16` is malformed.
pub fn decode_value(text: &[u8]) -> (r: Result<i16, Error>)
    ensures
        r == decoded(text@),
{
    let mut seen_point = false;
    let mut negative = false;
    let mut any_digit = false;
    let mut magnitude: i32 = 0;
    let mut i: usize = 0;
    while i < text.len()
        invariant
            i <= text.len(),
            hopeful(text@.take(i as int)),
            seen_point == (i - without_points(text@.take(i as int)).len() == 1),
            negative == is_negative(without_points(text@.take(i as int))),
            any_digit == (digits_part(without_points(text@.take(i as int))).len() > 0),
            magnitude == digits_value(digits_part(without_points(text@.take(i as int)))),
            0 <= magnitude <= 32768,
        decreases text.len() - i,
    {
        let b = text[i];
        proof {
            let prefix = text@.take(i as int);
            let digits = digits_part(without_points(prefix));
            assert(prefix.push(b) =~= text@.take(i + 1));
            lemma_scan_step(prefix, b);
            lemma_digits_value_push(digits, b);
            lemma_digits_value_nonnegative(digits);
        }
        if b == POINT {
            if seen_point {
                proof {
                    lemma_hopeless_prefix(text@, i + 1);
                }
                return Err(Error::MalformedRecord);
            }
            seen_point = true;
        } else if b == MINUS {
            if negative || any_digit {
                proof {
                    lemma_hopeless_prefix(text@, i + 1);
                }
                return Err(Error::MalformedRecord);
            }
            negative = true;
        } else if ZERO <= b && b <= ZERO + 9 {
            magnitude = magnitude * 10 + (b - ZERO) as i32;
            if magnitude > 32768 {
                proof {
                    lemma_hopeless_prefix(text@, i + 1);
                }
                return Err(Error::MalformedRecord);
            }
            any_digit = true;
        } else {
            proof {
                lemma_hopeless_prefix(text@, i + 1);
            }
            return Err(Error::MalformedRecord);
        }
        i = i + 1;
    }
    assert(text@.take(i as int) =~= text@);
    if !any_digit {
        Err(Error::MalformedRecord)
    } else if negative {
        Ok((-magnitude) as i16)
    } else if magnitude > 32767 {
        Err(Error::MalformedRecord)
    } else {
        Ok(magnitude as i16)
    }
}

/// Decodes a value text that is held as a string: the bytes of the string
/// are decoded as `decode_value` decodes them.
pub fn decode_str(text: &str) -> (r: Result<i16, Error>)
    ensures
        r == decoded(encode_utf8(text@)),
{
    decode_value(text.as_bytes())
}

/// The decimal digits of a number are digits, at least one of them, and they
/// write that number.
pub proof fn lemma_decimal_is_digits(n: nat)
    ensures
        decimal(n).len() > 0,
        all_digits(decimal(n)),
        digits_value(decimal(n)) == n,
    decreases n,
{
    if n < 10 {
        assert(digits_value(decimal(n).drop_last()) == 0);
    } else {
        lemma_decimal_is_digits(n / 10);
        lemma_digits_value_push(decimal(n / 10), (ZERO + n % 10) as u8);
    }
}

/// Taking the points out of a text that has none changes nothing.
proof fn lemma_without_points_of_digits(text: Seq<u8>)
    requires
        all_digits(text),
    ensures
        without_points(text) == text,
    decreases text.len(),
{
    reveal(Seq::filter);
    if text.len() > 0 {
        lemma_without_points_of_digits(text.drop_last());
    }
}

/// A decimal with digits before the point and one digit behind it decodes
/// to its fixed-point integer, the digit behind the point being the last
/// digit of the integer. It is malformed where that integer is no `i16`.
pub proof fn lemma_decoded_decimal(negative: bool, whole: Seq<u8>, tenth: u8)
    requires
        whole.len() > 0,
        all_digits(whole),
        is_digit(tenth),
    ensures
        i16::MIN <= decimal_value(negative, whole, tenth) <= i16::MAX ==> decoded(
            decimal_text(negative, whole, tenth),
        ) == Ok::<i16, Error>(decimal_value(negative, whole, tenth) as i16),
        !(i16::MIN <= decimal_value(negative, whole, tenth) <= i16::MAX) ==> decoded(
            decimal_text(negative, whole, tenth),
        ) == Err::<i16, Error>(Error::MalformedRecord),
{
    lemma_without_points_of_digits(whole);
    lemma_scan_step(whole, POINT);
    lemma_scan_step(whole.push(POINT), tenth);
    lemma_digits_value_push(whole, tenth);
    let unsigned = whole.push(POINT).push(tenth);
    if negative {
        let sign = seq![MINUS];
        Seq::filter_distributes_over_add(sign, unsigned, not_point());
        lemma_scan_step(Seq::<u8>::empty(), MINUS);
        assert(without_points(Seq::<u8>::empty()) =~= Seq::<u8>::empty()) by {
            reveal(Seq::filter);
        }
        assert((sign + whole.push(tenth)).drop_first() =~= whole.push(tenth));
    }
}

/// Formatting and then decoding gives the integer back, for every `i16`.
pub proof fn lemma_decode_inverts_format(value: i16)
    ensures
        decoded(num_text(value as int)) == Ok::<i16, Error>(value),
{
    let magnitude: int = if value < 0 {
        -value
    } else {
        value as int
    };
    lemma_decimal_is_digits((magnitude / 10) as nat);
    lemma_decoded_decimal(
        value < 0,
        decimal((magnitude / 10) as nat),
        (ZERO + magnitude % 10) as u8,
    );
}

/// The text of a fixed-point integer holds digits, a point and a sign only.
pub proof fn lemma_num_text_is_glyphs(value: int)
    ensures
        forall|i: int|
            0 <= i < num_text(value).len() ==> is_glyph(#[trigger] num_text(value)[i]),
{
    let magnitude = if value < 0 {
        -value
    } else {
        value
    };
    lemma_decimal_is_digits((magnitude / 10) as nat);
}

/// Appends the decimal digits of a number to a buffer.
fn push_decimal(out: &mut Vec<u8>, n: u32)
    ensures
        final(out)@ == old(out)@ + decimal(n as nat),
    decreases n,
{
    if n >= 10 {
        push_decimal(out, n / 10);
    }
    out.push(ZERO + (n % 10) as u8);
}

/// Appends the text of a fixed-point integer to a buffer: the point goes
/// back in before the last digit, so that -987 reads `-98.7` and 5 reads
/// `0.5`.
pub fn push_num(out: &mut Vec<u8>, num: i16)
    ensures
        final(out)@ == old(out)@ + num_text(num as int),
{
    let magnitude: u32 = if num < 0 {
        out.push(MINUS);
        (-(num as i32)) as u32
    } else {
        num as u32
    };
    push_decimal(out, magnitude / 10);
    out.push(POINT);
    out.push(ZERO + (magnitude % 10) as u8);
}

/// The string of one byte for a byte of a fixed-point text.
fn glyph(b: u8) -> (s: &'static str)
    requires
        is_glyph(b),
    ensures
        s@ == seq![b as char],
{
    proof {
        reveal_strlit("-");
        reveal_strlit(".");
        reveal_strlit("0");
        reveal_strlit("1");
        reveal_strlit("2");
        reveal_strlit("3");
        reveal_strlit("4");
        reveal_strlit("5");
        reveal_strlit("6");
        reveal_strlit("7");
        reveal_strlit("8");
        reveal_strlit("9");
    }
    if b == MINUS {
        "-"
    } else if b == POINT {
        "."
    } else if b == ZERO {
        "0"
    } else if b == ZERO + 1 {
        "1"
    } else if b == ZERO + 2 {
        "2"
    } else if b == ZERO + 3 {
        "3"
    } else if b == ZERO + 4 {
        "4"
    } else if b == ZERO + 5 {
        "5"
    } else if b == ZERO + 6 {
        "6"
    } else if b == ZERO + 7 {
        "7"
    } else if b == ZERO + 8 {
        "8"
    } else {
        "9"
    }
}

/// Formats a fixed-point integer as the decimal that is a tenth of it, with
/// one digit behind the point: -987 gives `-98.7`, 5 gives `0.5`, -5 gives
/// `-0.5` and 0 gives `0.0`.
pub fn fmt_num(num: i16) -> (s: String)
    ensures
        s@ == ascii(num_text(num as int)),
        encode_utf8(s@) == num_text(num as int),
{
    let mut bytes: Vec<u8> = Vec::new();
    push_num(&mut bytes, num);
    proof {
        lemma_num_text_is_glyphs(num as int);
    }
    let mut s = String::new();
    let mut i: usize = 0;
    while i < bytes.len()
        invariant
            i <= bytes.len(),
            forall|j: int| 0 <= j < bytes.len() ==> is_glyph(#[trigger] bytes[j]),
            s@ == ascii(bytes@.take(i as int)),
        decreases bytes.len() - i,
    {
        s.append(glyph(bytes[i]));
        i = i + 1;
    }
    proof {
        is_ascii_chars_encode_utf8(s@);
    }
    s
}

} // verus!
