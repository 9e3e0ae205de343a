//! Byte classes of the Burn lexical grammar, and facts about UTF-8 that let
//! the lexer cut its source at the byte positions it computes.

use vstd::prelude::*;
use vstd::string::*;
use vstd::utf8::*;

verus! {

pub const TAB: u8 = 9;
pub const NEWLINE: u8 = 10;
pub const SPACE: u8 = 32;
pub const BANG: u8 = 33;
pub const DOUBLE_QUOTE: u8 = 34;
pub const DOLLAR: u8 = 36;
pub const PERCENT: u8 = 37;
pub const LEFT_PAREN: u8 = 40;
pub const RIGHT_PAREN: u8 = 41;
pub const ASTERISK: u8 = 42;
pub const PLUS: u8 = 43;
pub const COMMA: u8 = 44;
pub const DASH: u8 = 45;
pub const DOT: u8 = 46;
pub const SLASH: u8 = 47;
pub const DIGIT_0: u8 = 48;
pub const DIGIT_1: u8 = 49;
pub const DIGIT_9: u8 = 57;
pub const COLON: u8 = 58;
pub const LEFT_ANGLE: u8 = 60;
pub const EQUALS: u8 = 61;
pub const RIGHT_ANGLE: u8 = 62;
pub const UPPER_A: u8 = 65;
pub const UPPER_Z: u8 = 90;
pub const LEFT_SQUARE: u8 = 91;
pub const BACKSLASH: u8 = 92;
pub const RIGHT_SQUARE: u8 = 93;
pub const UNDERSCORE: u8 = 95;
pub const LOWER_A: u8 = 97;
pub const LOWER_N: u8 = 110;
pub const LOWER_R: u8 = 114;
pub const LOWER_T: u8 = 116;
pub const LOWER_Z: u8 = 122;
pub const LEFT_CURLY: u8 = 123;
pub const VERTICAL_BAR: u8 = 124;
pub const RIGHT_CURLY: u8 = 125;

pub open spec fn is_digit(c: u8) -> bool {
    DIGIT_0 <= c <= DIGIT_9
}

/// Letters, `_` and `:`: the bytes an identifier can start with.
pub open spec fn is_name_start(c: u8) -> bool {
    ||| LOWER_A <= c <= LOWER_Z
    ||| UPPER_A <= c <= UPPER_Z
    ||| c == UNDERSCORE
    ||| c == COLON
}

/// Letters, digits, `_`, `:` and `!`: the bytes that can follow the first
/// byte of an identifier, and make up the name of a variable.
pub open spec fn is_name_char(c: u8) -> bool {
    is_name_start(c) || is_digit(c) || c == BANG
}

pub fn digit(c: u8) -> (r: bool)
    ensures
        r == is_digit(c),
{
    DIGIT_0 <= c && c <= DIGIT_9
}

pub fn name_start(c: u8) -> (r: bool)
    ensures
        r == is_name_start(c),
{
    (LOWER_A <= c && c <= LOWER_Z) || (UPPER_A <= c && c <= UPPER_Z) || c == UNDERSCORE || c
        == COLON
}

pub fn name_char(c: u8) -> (r: bool)
    ensures
        r == is_name_char(c),
{
    name_start(c) || digit(c) || c == BANG
}

/// The number of bytes that the UTF-8 encoded character starting with byte `c`
/// takes. A byte that cannot start a character counts as one byte.
pub open spec fn char_width(c: u8) -> int {
    if is_leading_byte_width_2(c) {
        2
    } else if is_leading_byte_width_3(c) {
        3
    } else if is_leading_byte_width_4(c) {
        4
    } else {
        1
    }
}

pub fn utf8_width(c: u8) -> (r: usize)
    ensures
        r == char_width(c),
        1 <= r <= 4,
{
    if 0xc0 <= c && c <= 0xdf {
        2
    } else if 0xe0 <= c && c <= 0xef {
        3
    } else if 0xf0 <= c && c <= 0xf7 {
        4
    } else {
        1
    }
}

/// The bytes of a string slice are valid UTF-8.
pub proof fn lemma_str_valid_utf8(s: &str)
    ensures
        valid_utf8(s.spec_bytes()),
{
    encode_utf8_valid_utf8(s@);
}

/// In valid UTF-8, the byte that follows an ASCII byte starts a character.
pub proof fn lemma_after_ascii(b: Seq<u8>, i: int)
    requires
        valid_utf8(b),
        0 < i < b.len(),
        b[i - 1] < 0x80,
    ensures
        !is_continuation_byte(b[i]),
{
    is_char_boundary_iff_not_is_continuation_byte(b, i - 1);
    valid_utf8_split(b, i - 1);
    let s = b.subrange(i - 1, b.len() as int);
    assert(s[0] == b[i - 1]);
    assert(valid_first_scalar(s));
    let r = pop_first_scalar(s);
    assert(r =~= b.subrange(i, b.len() as int));
    assert(valid_utf8(r));
    assert(r.len() > 0);
    assert(valid_first_scalar(r));
    assert(r[0] == b[i]);
}

/// A position is a character boundary when it is the end of the bytes, or its
/// byte is not a continuation byte.
pub proof fn lemma_boundary(b: Seq<u8>, i: int)
    requires
        valid_utf8(b),
        0 <= i <= b.len(),
        i == b.len() || !is_continuation_byte(b[i]),
    ensures
        is_char_boundary(b, i),
{
    if i == b.len() {
        is_char_boundary_start_end_of_seq(b);
    } else {
        is_char_boundary_iff_not_is_continuation_byte(b, i);
    }
}

/// The part of `s` from byte `start` up to byte `end`.
pub fn substring<'a>(s: &'a str, start: usize, end: usize) -> (r: &'a str)
    requires
        start <= end <= s.spec_bytes().len(),
        start == s.spec_bytes().len() || !is_continuation_byte(s.spec_bytes()[start as int]),
        end == s.spec_bytes().len() || !is_continuation_byte(s.spec_bytes()[end as int]),
    ensures
        r.spec_bytes() == s.spec_bytes().subrange(start as int, end as int),
{
    let ghost b = s.spec_bytes();
    proof {
        lemma_str_valid_utf8(s);
        lemma_boundary(b, start as int);
    }
    let (_, rest) = s.split_at(start);
    proof {
        valid_utf8_split(b, start as int);
        let rb = b.subrange(start as int, b.len() as int);
        assert(rest.spec_bytes() =~= rb);
        if end < b.len() {
            assert(rb[end - start] == b[end as int]);
        }
        lemma_boundary(rb, end - start);
    }
    let (mid, _) = rest.split_at(end - start);
    proof {
        assert(mid.spec_bytes() =~= b.subrange(start as int, end as int));
    }
    mid
}

} // verus!
