//! The text form of a feedback score.
//!
//! A feedback score is a number below `3^5` read as five base-3 digits, the
//! lowest digit standing for the first letter of the guess. A digit is `0`
//! for a letter that the target lacks, `1` for a letter that the target has
//! elsewhere and `2` for a letter in its place. The text form has one
//! character per letter, first letter first: `.` for 0, `y` for 1 and `G`
//! for 2. Reading accepts either case.

use vstd::arithmetic::div_mod::lemma_div_denominator;
use vstd::prelude::*;
use vstd::string::*;
use vstd::utf8::*;

verus! {

/// The number of letters in a word.
pub const WORD_LENGTH: usize = 5;

/// The number of feedback scores: `3^WORD_LENGTH`.
pub const NUM_SCORES: usize = 243;

/// A feedback score: a number below `NUM_SCORES`.
pub type WordScore = u8;

/// The feedback score of a guess that equals the target: every digit is 2.
pub const WINNING_SCORE: WordScore = 242;

/// `3^n`.
pub open spec fn pow3(n: nat) -> nat
    decreases n,
{
    if n == 0 {
        1
    } else {
        3 * pow3((n - 1) as nat)
    }
}

/// The base-3 digit of `score` that stands for letter position `i`.
pub open spec fn score_digit(score: int, i: nat) -> int {
    (score / (pow3(i) as int)) % 3
}

/// The number whose base-3 digits, lowest first, are `digits`: the sum of
/// `digits[i] * 3^i`.
pub open spec fn digits_value(digits: Seq<int>) -> int
    decreases digits.len(),
{
    if digits.len() == 0 {
        0
    } else {
        digits_value(digits.drop_last()) + digits.last() * pow3((digits.len() - 1) as nat)
    }
}

/// Whether `score` is a feedback score of a word of `WORD_LENGTH` letters.
pub open spec fn is_score(score: int) -> bool {
    0 <= score < NUM_SCORES
}

/// The character that stands for a digit.
pub open spec fn digit_char(digit: int) -> char {
    if digit == 0 {
        '.'
    } else if digit == 1 {
        'y'
    } else {
        'G'
    }
}

/// The text form of `score`: one character for each of its `WORD_LENGTH`
/// digits, lowest digit first.
pub open spec fn format_spec(score: int) -> Seq<char> {
    Seq::new(WORD_LENGTH as nat, |i: int| digit_char(score_digit(score, i as nat)))
}

/// The powers of 3 that a feedback score is made of.
pub proof fn lemma_pow3_values()
    ensures
        pow3(0) == 1,
        pow3(1) == 3,
        pow3(2) == 9,
        pow3(3) == 27,
        pow3(4) == 81,
        pow3(5) == 243,
{
    reveal_with_fuel(pow3, 6);
}

/// Every power of 3 is positive.
pub proof fn lemma_pow3_positive(n: nat)
    ensures
        pow3(n) > 0,
    decreases n,
{
    if n > 0 {
        lemma_pow3_positive((n - 1) as nat);
    }
}

/// Dropping the lowest digit of `score / 3^i` leaves `score / 3^(i + 1)`.
proof fn lemma_div_pow3_step(score: int, i: nat)
    requires
        0 <= score,
    ensures
        (score / (pow3(i) as int)) / 3 == score / (pow3(i + 1) as int),
{
    lemma_pow3_positive(i);
    lemma_div_denominator(score, pow3(i) as int, 3);
    assert(pow3(i + 1) == 3 * pow3(i));
    assert((pow3(i) as int) * 3 == pow3(i + 1) as int);
}

/// Writes a feedback score as text, such as `.y..G` for 165.
pub fn format_score(score: WordScore) -> (text: String)
    requires
        is_score(score as int),
    ensures
        text@ == format_spec(score as int),
{
    let mut text = String::new();
    let mut rest: u8 = score;
    assert(pow3(0) == 1);
    for i in 0..WORD_LENGTH
        invariant
            text@.len() == i,
            rest as int == score as int / (pow3(i as nat) as int),
            forall|k: int|
                0 <= k < i ==> text@[k] == digit_char(score_digit(score as int, k as nat)),
    {
        let digit: u8 = rest % 3;
        proof {
            lemma_div_pow3_step(score as int, i as nat);
            reveal_strlit(".");
            reveal_strlit("y");
            reveal_strlit("G");
        }
        if digit == 0 {
            text.append(".");
        } else if digit == 1 {
            text.append("y");
        } else {
            text.append("G");
        }
        rest = rest / 3;
    }
    text
}

/// The digit that a character stands for, if it stands for one.
pub open spec fn char_digit(c: char) -> Option<int> {
    if c == '.' {
        Some(0int)
    } else if c == 'y' || c == 'Y' {
        Some(1int)
    } else if c == 'g' || c == 'G' {
        Some(2int)
    } else {
        None
    }
}

/// Whether `text` is the text form of a feedback score: `WORD_LENGTH`
/// characters that each stand for a digit.
pub open spec fn is_score_text(text: Seq<char>) -> bool {
    &&& text.len() == WORD_LENGTH
    &&& forall|i: int| 0 <= i < text.len() ==> char_digit(#[trigger] text[i]) is Some
}

/// The digits that the characters of `text` stand for.
pub open spec fn text_digits(text: Seq<char>) -> Seq<int> {
    Seq::new(text.len(), |i: int| char_digit(text[i])->0)
}

/// The feedback score that `text` is the text form of, if it is one.
pub open spec fn parse_spec(text: Seq<char>) -> Option<u8> {
    if is_score_text(text) {
        Some(digits_value(text_digits(text)) as u8)
    } else {
        None
    }
}

/// The digit that a byte stands for, if it stands for one.
spec fn byte_digit(b: u8) -> Option<int> {
    if b == 0x2E {
        Some(0int)
    } else if b == 0x79 || b == 0x59 {
        Some(1int)
    } else if b == 0x67 || b == 0x47 {
        Some(2int)
    } else {
        None
    }
}

/// A character below 128 stands for the digit that its byte stands for.
proof fn lemma_char_digit_of_byte(c: char)
    requires
        c as u32 <= 0x7F,
    ensures
        char_digit(c) == byte_digit(c as u8),
{
    assert('.' as u32 == 0x2E);
    assert('y' as u32 == 0x79);
    assert('Y' as u32 == 0x59);
    assert('g' as u32 == 0x67);
    assert('G' as u32 == 0x47);
}

/// A character that stands for a digit is below 128.
proof fn lemma_digit_char_is_ascii(c: char)
    requires
        char_digit(c) is Some,
    ensures
        c as u32 <= 0x7F,
{
}

/// A character whose number is below 128 stands before the last ASCII
/// character.
proof fn lemma_char_below(c: char)
    requires
        c as u32 <= 0x7F,
    ensures
        '\0' <= c <= '\u{7f}',
{
}

/// Characters whose encoding holds only bytes below 128 are all below 128.
proof fn lemma_ascii_bytes(chars: Seq<char>)
    requires
        forall|i: int| 0 <= i < encode_utf8(chars).len() ==> encode_utf8(chars)[i] < 0x80,
    ensures
        is_ascii_chars(chars),
    decreases chars.len(),
{
    if chars.len() > 0 {
        let c0 = chars[0] as u32;
        let head = encode_scalar(c0);
        let rest = chars.drop_first();
        let bytes = encode_utf8(chars);
        assert(bytes == head + encode_utf8(rest));
        assert(head.len() >= 1);
        assert(bytes[0] == head[0]);
        assert(bytes[0] < 0x80);
        assert(0xC0u8 | ((c0 >> 6) & 0x1F) as u8 >= 0x80) by (bit_vector);
        assert(0xE0u8 | ((c0 >> 12) & 0x0F) as u8 >= 0x80) by (bit_vector);
        assert(0xF0u8 | ((c0 >> 18) & 0x7) as u8 >= 0x80) by (bit_vector);
        assert(has_width_1_encoding(c0));
        assert(head.len() == 1);
        assert forall|i: int| 0 <= i < encode_utf8(rest).len() implies encode_utf8(rest)[i]
            < 0x80 by {
            assert(encode_utf8(rest)[i] == bytes[i + 1]);
        }
        lemma_ascii_bytes(rest);
        lemma_char_below(chars[0]);
        assert forall|i: int| 0 <= i < chars.len() implies '\0' <= #[trigger] chars[i]
            <= '\u{7f}' by {
            if i > 0 {
                assert(chars[i] == rest[i - 1]);
            }
        }
    }
}

/// Bytes that each stand for a digit are the encoding of as many
/// characters, which stand for the same digits.
proof fn lemma_digit_bytes(chars: Seq<char>)
    requires
        forall|i: int|
            0 <= i < encode_utf8(chars).len() ==> byte_digit(#[trigger] encode_utf8(chars)[i])
                is Some,
    ensures
        chars.len() == encode_utf8(chars).len(),
        forall|i: int|
            0 <= i < chars.len() ==> char_digit(#[trigger] chars[i]) == byte_digit(
                encode_utf8(chars)[i],
            ),
{
    let bytes = encode_utf8(chars);
    assert forall|i: int| 0 <= i < bytes.len() implies bytes[i] < 0x80 by {
        assert(byte_digit(bytes[i]) is Some);
    }
    lemma_ascii_bytes(chars);
    is_ascii_chars_encode_utf8(chars);
    assert forall|i: int| 0 <= i < chars.len() implies char_digit(#[trigger] chars[i])
        == byte_digit(bytes[i]) by {
        assert(chars[i] as u8 == bytes[i]);
        lemma_char_digit_of_byte(chars[i]);
    }
}

/// Characters that each stand for a digit are encoded in as many bytes,
/// which stand for the same digits.
proof fn lemma_digit_chars(chars: Seq<char>)
    requires
        forall|i: int| 0 <= i < chars.len() ==> char_digit(#[trigger] chars[i]) is Some,
    ensures
        chars.len() == encode_utf8(chars).len(),
        forall|i: int|
            0 <= i < chars.len() ==> char_digit(#[trigger] chars[i]) == byte_digit(
                encode_utf8(chars)[i],
            ),
{
    let bytes = encode_utf8(chars);
    assert forall|i: int| 0 <= i < chars.len() implies '\0' <= #[trigger] chars[i]
        <= '\u{7f}' by {
        lemma_digit_char_is_ascii(chars[i]);
    }
    is_ascii_chars_encode_utf8(chars);
    assert forall|i: int| 0 <= i < chars.len() implies char_digit(#[trigger] chars[i])
        == byte_digit(bytes[i]) by {
        assert(chars[i] as u8 == bytes[i]);
        lemma_char_digit_of_byte(chars[i]);
    }
}

/// Digits are worth less than the power of 3 that follows them.
pub proof fn lemma_digits_value_bound(digits: Seq<int>)
    requires
        forall|i: int| 0 <= i < digits.len() ==> 0 <= #[trigger] digits[i] <= 2,
    ensures
        0 <= digits_value(digits) < pow3(digits.len()),
    decreases digits.len(),
{
    if digits.len() > 0 {
        lemma_digits_value_bound(digits.drop_last());
        let p = pow3((digits.len() - 1) as nat) as int;
        let d = digits.last();
        assert(d == 0 || d == 1 || d == 2);
        assert(d * p == 0 || d * p == p || d * p == 2 * p);
    }
}

/// Reads a feedback score from its text form, such as 165 from `.y..G`.
/// Text that is no text form of a score gives `None`.
pub fn parse_score(readable: &str) -> (score: Option<WordScore>)
    ensures
        score == parse_spec(readable@),
{
    let ghost chars = readable@;
    let bytes = readable.as_bytes();
    if bytes.len() != WORD_LENGTH {
        proof {
            if is_score_text(chars) {
                lemma_digit_chars(chars);
            }
        }
        return None;
    }
    let mut result: u8 = 0;
    let mut mult: u8 = 1;
    let ghost mut digits: Seq<int> = Seq::empty();
    proof {
        lemma_pow3_values();
    }
    for i in 0..WORD_LENGTH
        invariant
            chars == readable@,
            bytes@ == encode_utf8(chars),
            bytes@.len() == WORD_LENGTH,
            digits.len() == i,
            forall|k: int| 0 <= k < i ==> byte_digit(#[trigger] bytes@[k]) == Some(digits[k]),
            forall|k: int| 0 <= k < i ==> 0 <= #[trigger] digits[k] <= 2,
            mult as int == pow3(i as nat),
            result as int == digits_value(digits),
    {
        let c = bytes[i];
        let digit: u8 = if c == 0x67 || c == 0x47 {
            2
        } else if c == 0x79 || c == 0x59 {
            1
        } else if c == 0x2E {
            0
        } else {
            proof {
                if is_score_text(chars) {
                    lemma_digit_chars(chars);
                    assert(char_digit(chars[i as int]) is Some);
                }
            }
            return None;
        };
        proof {
            lemma_pow3_values();
            assert(i == 0 || i == 1 || i == 2 || i == 3 || i == 4);
            assert(mult <= 81);
            lemma_digits_value_bound(digits);
            assert(result < mult);
            assert(digit == 0 || digit == 1 || digit == 2);
            assert(digit * mult == 0 || digit * mult == mult || digit * mult == 2 * mult);
            let next = digits.push(digit as int);
            assert(next.drop_last() =~= digits);
            assert(next.last() == digit);
            assert(digits_value(next) == digits_value(digits) + digit * pow3(i as nat));
            digits = next;
        }
        result += digit * mult;
        mult *= 3;
    }
    proof {
        lemma_digit_bytes(chars);
        assert(is_score_text(chars));
        assert(text_digits(chars) =~= digits);
        lemma_digits_value_bound(digits);
    }
    Some(result)
}

/// The value of five digits.
pub proof fn lemma_digits_value_5(digits: Seq<int>)
    requires
        digits.len() == 5,
    ensures
        digits_value(digits) == digits[0] + 3 * digits[1] + 9 * digits[2] + 27 * digits[3] + 81
            * digits[4],
{
    lemma_pow3_values();
    let d4 = digits.drop_last();
    let d3 = d4.drop_last();
    let d2 = d3.drop_last();
    let d1 = d2.drop_last();
    let d0 = d1.drop_last();
    assert(digits_value(d0) == 0);
    assert(digits_value(d1) == digits_value(d0) + d1.last() * pow3(0));
    assert(digits_value(d2) == digits_value(d1) + d2.last() * pow3(1));
    assert(digits_value(d3) == digits_value(d2) + d3.last() * pow3(2));
    assert(digits_value(d4) == digits_value(d3) + d4.last() * pow3(3));
    assert(digits_value(digits) == digits_value(d4) + digits.last() * pow3(4));
}

/// The digits of the value of five digits are those digits.
pub proof fn lemma_score_digits(digits: Seq<int>)
    requires
        digits.len() == WORD_LENGTH,
        forall|i: int| 0 <= i < digits.len() ==> 0 <= #[trigger] digits[i] <= 2,
    ensures
        is_score(digits_value(digits)),
        forall|i: int|
            0 <= i < WORD_LENGTH ==> score_digit(digits_value(digits), i as nat) == digits[i],
{
    lemma_digits_value_5(digits);
    lemma_pow3_values();
    let v = digits_value(digits);
    assert(0 <= digits[0] <= 2 && 0 <= digits[1] <= 2 && 0 <= digits[2] <= 2 && 0 <= digits[3]
        <= 2 && 0 <= digits[4] <= 2);
    assert(score_digit(v, 0) == digits[0]);
    assert(score_digit(v, 1) == digits[1]);
    assert(score_digit(v, 2) == digits[2]);
    assert(score_digit(v, 3) == digits[3]);
    assert(score_digit(v, 4) == digits[4]);
}

/// A feedback score is the value of its five digits.
pub proof fn lemma_value_of_digits(score: int)
    requires
        is_score(score),
    ensures
        digits_value(Seq::new(WORD_LENGTH as nat, |i: int| score_digit(score, i as nat)))
            == score,
{
    let digits = Seq::new(WORD_LENGTH as nat, |i: int| score_digit(score, i as nat));
    lemma_digits_value_5(digits);
    lemma_pow3_values();
    let q0 = score / (pow3(0) as int);
    let q1 = score / (pow3(1) as int);
    let q2 = score / (pow3(2) as int);
    let q3 = score / (pow3(3) as int);
    let q4 = score / (pow3(4) as int);
    let q5 = score / (pow3(5) as int);
    lemma_div_pow3_step(score, 0);
    lemma_div_pow3_step(score, 1);
    lemma_div_pow3_step(score, 2);
    lemma_div_pow3_step(score, 3);
    lemma_div_pow3_step(score, 4);
    assert(q0 == score);
    assert(q5 == 0);
    assert(q0 == 3 * q1 + digits[0]);
    assert(q1 == 3 * q2 + digits[1]);
    assert(q2 == 3 * q3 + digits[2]);
    assert(q3 == 3 * q4 + digits[3]);
    assert(q4 == 3 * q5 + digits[4]);
}

/// Reading the text form of a feedback score gives the score back.
pub proof fn lemma_parse_format(score: u8)
    requires
        is_score(score as int),
    ensures
        parse_spec(format_spec(score as int)) == Some(score),
{
    let text = format_spec(score as int);
    assert forall|i: int| 0 <= i < text.len() implies char_digit(#[trigger] text[i]) == Some(
        score_digit(score as int, i as nat),
    ) by {
        lemma_pow3_positive(i as nat);
    }
    assert(is_score_text(text));
    assert(text_digits(text) =~= Seq::new(
        WORD_LENGTH as nat,
        |i: int| score_digit(score as int, i as nat),
    ));
    lemma_value_of_digits(score as int);
}

/// The text form of the winning score is `GGGGG`.
pub proof fn lemma_format_winning()
    ensures
        format_spec(WINNING_SCORE as int) == seq!['G', 'G', 'G', 'G', 'G'],
{
    lemma_pow3_values();
    let text = format_spec(WINNING_SCORE as int);
    assert(text[0] == 'G');
    assert(text[1] == 'G');
    assert(text[2] == 'G');
    assert(text[3] == 'G');
    assert(text[4] == 'G');
    assert(text =~= seq!['G', 'G', 'G', 'G', 'G']);
}

} // verus!
