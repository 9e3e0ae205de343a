//! The values of integer and string literals.

use vstd::prelude::*;
use vstd::string::*;
use vstd::utf8::*;
use crate::parse::bytes::{DASH, DIGIT_0, is_digit, digit, utf8_width};
use crate::util::source::{utf8_len, lemma_char_at, lemma_take_all};

verus! {

// INTEGERS ////////////////////////////////////////////////////////////////////////////////////////

/// The value of a sequence of decimal digits.
pub open spec fn digits_value(s: Seq<u8>) -> int
    decreases s.len(),
{
    if s.len() == 0 {
        0
    } else {
        digits_value(s.drop_last()) * 10 + (s.last() - DIGIT_0)
    }
}

pub open spec fn all_digits(s: Seq<u8>) -> bool {
    s.len() > 0 && forall|i: int| 0 <= i < s.len() ==> is_digit(#[trigger] s[i])
}

/// The value written by an integer literal: an optional `-` followed by one or
/// more decimal digits.
pub open spec fn integer_value(s: Seq<u8>) -> Option<int> {
    if s.len() > 0 && s[0] == DASH && all_digits(s.drop_first()) {
        Some(-digits_value(s.drop_first()))
    } else if all_digits(s) {
        Some(digits_value(s))
    } else {
        None
    }
}

proof fn lemma_digits_value_grows(s: Seq<u8>, k: int)
    requires
        0 <= k <= s.len(),
        forall|i: int| 0 <= i < s.len() ==> is_digit(#[trigger] s[i]),
    ensures
        0 <= digits_value(s.take(k)) <= digits_value(s),
    decreases s.len() - k,
{
    if k < s.len() {
        lemma_digits_value_grows(s, k + 1);
        assert(s.take(k + 1).drop_last() =~= s.take(k));
        assert(s.take(k + 1).last() == s[k]);
        assert(is_digit(s[k]));
    } else {
        assert(s.take(k) =~= s);
    }
    lemma_digits_value_nonneg(s.take(k));
}

proof fn lemma_digits_value_nonneg(s: Seq<u8>)
    requires
        forall|i: int| 0 <= i < s.len() ==> is_digit(#[trigger] s[i]),
    ensures
        0 <= digits_value(s),
    decreases s.len(),
{
    if s.len() > 0 {
        assert(is_digit(s[s.len() - 1]));
        lemma_digits_value_nonneg(s.drop_last());
    }
}

fn error_message(message: &str) -> (r: String)
    ensures
        r@ == message@,
{
    String::from_str(message)
}

/// Parses an integer literal: an optional `-` followed by decimal digits,
/// whose value fits an `i64`.
pub fn parse_int(source: &str) -> (r: Result<i64, String>)
    ensures
        r is Ok <==> (integer_value(source.spec_bytes()) matches Some(v) && i64::MIN <= v
            <= i64::MAX),
        r matches Ok(v) ==> integer_value(source.spec_bytes()) == Some(v as int),
        r matches Err(e) ==> e@ == "Integer literal is out of range."@,
{
    let bytes = source.as_bytes();
    let ghost b = bytes@;
    let len = bytes.len();
    let negative = len > 0 && bytes[0] == DASH;
    let first: usize = if negative {
        1
    } else {
        0
    };
    let ghost ds = b.subrange(first as int, len as int);
    proof {
        assert(negative ==> ds =~= b.drop_first());
        assert(!negative ==> ds =~= b);
    }
    if first >= len {
        proof {
            assert(!all_digits(ds));
            if len > 0 {
                assert(!is_digit(b[0]));
            }
            assert(!all_digits(b));
        }
        return Err(error_message("Integer literal is out of range."));
    }
    // The magnitude of the value so far, which may reach 2^63 for a negative value.
    let mut magnitude: u64 = 0;
    let limit: u64 = if negative {
        0x8000_0000_0000_0000
    } else {
        0x7fff_ffff_ffff_ffff
    };
    let mut i = first;
    while i < len
        invariant
            b == bytes@,
            b == source.spec_bytes(),
            len == b.len(),
            first <= i <= len,
            first < len,
            negative == (len > 0 && b[0] == DASH),
            first == if negative { 1usize } else { 0usize },
            ds == b.subrange(first as int, len as int),
            negative ==> ds == b.drop_first(),
            !negative ==> ds == b,
            forall|k: int| 0 <= k < i - first ==> is_digit(#[trigger] ds[k]),
            magnitude == digits_value(ds.take(i - first)),
            magnitude <= limit,
            limit == if negative {
                0x8000_0000_0000_0000u64
            } else {
                0x7fff_ffff_ffff_ffffu64
            },
        decreases len - i,
    {
        let c = bytes[i];
        if !digit(c) {
            proof {
                assert(ds[i - first] == c);
                assert(!all_digits(ds));
                assert(!all_digits(b)) by {
                    if negative {
                        assert(!is_digit(b[0]));
                    } else {
                        assert(b[i as int] == c);
                    }
                }
            }
            return Err(error_message("Integer literal is out of range."));
        }
        proof {
            assert(ds.take(i - first + 1).drop_last() =~= ds.take(i - first));
        }
        let d = (c - DIGIT_0) as u64;
        if magnitude > (limit - d) / 10 {
            proof {
                assert(digits_value(ds.take(i - first + 1)) > limit);
                if all_digits(ds) {
                    lemma_digits_value_grows(ds, i - first + 1);
                }
                if negative {
                    assert(!is_digit(b[0]));
                    assert(!all_digits(b));
                }
            }
            return Err(error_message("Integer literal is out of range."));
        }
        magnitude = magnitude * 10 + d;
        i += 1;
    }
    proof {
        assert(ds.take(len - first) =~= ds);
        assert(all_digits(ds));
    }
    if negative {
        if magnitude == 0x8000_0000_0000_0000 {
            Ok(i64::MIN)
        } else {
            Ok(-(magnitude as i64))
        }
    } else {
        proof {
            if b.len() > 0 && b[0] == DASH {
                assert(false);
            }
        }
        Ok(magnitude as i64)
    }
}


// STRINGS /////////////////////////////////////////////////////////////////////////////////////////

/// `r` with the characters `p` in front of its text, when it has one.
pub open spec fn with_prefix(p: Seq<char>, r: Option<Result<Seq<char>, int>>) -> Option<
    Result<Seq<char>, int>,
> {
    match r {
        Some(Ok(s)) => Some(Ok(p + s)),
        other => other,
    }
}

/// The text of a string literal read from character `i` on, up to its closing
/// `delimiter`: `Ok` with the unescaped text, or `Err` with the index of an
/// invalid escape sequence. Escapes: `\\`, a backslash before the delimiter,
/// and, unless the literal is raw, `\n` and `\t`; in a raw literal any other
/// backslash stands for itself. `None` when the text ends first.
pub open spec fn unescape(cs: Seq<char>, i: int, raw: bool, delimiter: char) -> Option<
    Result<Seq<char>, int>,
>
    decreases cs.len() - i,
{
    if !(0 <= i < cs.len()) {
        None
    } else if cs[i] == '\\' {
        if i + 1 >= cs.len() {
            None
        } else {
            let d = cs[i + 1];
            if d == '\\' {
                with_prefix(seq!['\\'], unescape(cs, i + 2, raw, delimiter))
            } else if d == delimiter {
                with_prefix(seq![delimiter], unescape(cs, i + 2, raw, delimiter))
            } else if raw {
                with_prefix(seq!['\\'], unescape(cs, i + 1, raw, delimiter))
            } else if d == 'n' {
                with_prefix(seq!['\n'], unescape(cs, i + 2, raw, delimiter))
            } else if d == 't' {
                with_prefix(seq!['\t'], unescape(cs, i + 2, raw, delimiter))
            } else {
                Some(Err(i))
            }
        }
    } else if cs[i] == delimiter {
        Some(Ok(seq![]))
    } else {
        with_prefix(seq![cs[i]], unescape(cs, i + 1, raw, delimiter))
    }
}

/// Whether a string literal is raw: it starts with `r`, and its delimiter is
/// its second character rather than its first.
pub open spec fn is_raw(cs: Seq<char>) -> bool {
    cs.len() > 0 && cs[0] == 'r'
}

/// The index of the first character after the opening delimiter.
pub open spec fn text_start(cs: Seq<char>) -> int {
    if is_raw(cs) {
        2
    } else {
        1
    }
}

/// The text of the string literal `cs` (see `unescape`).
pub open spec fn string_value(cs: Seq<char>) -> Option<Result<Seq<char>, int>> {
    unescape(cs, text_start(cs), is_raw(cs), cs[text_start(cs) - 1])
}

/// The literal has an ASCII delimiter and is read to its end without running
/// out of text.
pub open spec fn well_delimited(cs: Seq<char>) -> bool {
    &&& cs.len() >= text_start(cs)
    &&& (cs[text_start(cs) - 1] as u32) < 0x80
    &&& string_value(cs) is Some
}

proof fn lemma_ascii_byte(c: char, byte: u8, a: u8)
    requires
        byte == encode_scalar(c as u32)[0],
        a < 0x80,
    ensures
        (byte == a) == (c as u32 == a as u32),
{
    char_is_scalar(c);
    let v = c as u32;
    if has_width_1_encoding(v) {
        assert(byte == leading_byte_width_1(v));
        assert(v <= 0x7f && a < 0x80 ==> ((v & 0x7f) as u8 == a <==> v == a as u32)) by (bit_vector);
    } else if has_width_2_encoding(v) {
        assert(byte == leading_byte_width_2(v));
        assert(a < 0x80 ==> 0xC0u8 | ((v >> 6) & 0x1F) as u8 != a) by (bit_vector);
    } else if has_width_3_encoding(v) {
        assert(byte == leading_byte_width_3(v));
        assert(a < 0x80 ==> 0xE0u8 | ((v >> 12) & 0x0F) as u8 != a) by (bit_vector);
    } else {
        assert(byte == leading_byte_width_4(v));
        assert(a < 0x80 ==> 0xF0u8 | ((v >> 18) & 0x7) as u8 != a) by (bit_vector);
    }
}

/// The first byte of character `k`, compared with an ASCII byte `a`, tells
/// whether the character is `a`.
proof fn lemma_char_is(cs: Seq<char>, k: int, a: u8)
    requires
        0 <= k < cs.len(),
        a < 0x80,
    ensures
        (encode_utf8(cs)[utf8_len(cs.take(k))] == a) == (cs[k] as u32 == a as u32),
        encode_utf8(cs)[utf8_len(cs.take(k))] < 0x80 ==> cs[k] as u32 == encode_utf8(cs)[utf8_len(cs.take(k))] as u32,
{
    lemma_char_at(cs, k);
    lemma_first_byte(cs, k);
    lemma_ascii_byte(cs[k], encode_utf8(cs)[utf8_len(cs.take(k))], a);
    let byte = encode_utf8(cs)[utf8_len(cs.take(k))];
    if byte < 0x80 {
        lemma_ascii_byte(cs[k], byte, byte);
    }
}

proof fn lemma_first_byte(cs: Seq<char>, k: int)
    requires
        0 <= k < cs.len(),
    ensures
        encode_utf8(cs)[utf8_len(cs.take(k))] == encode_scalar(cs[k] as u32)[0],
        encode_scalar(cs[k] as u32).len() >= 1,
{
    crate::util::source::lemma_encode_concat(cs.take(k), cs.skip(k));
    assert(cs.take(k) + cs.skip(k) =~= cs);
    assert(cs.skip(k)[0] == cs[k]);
    char_is_scalar(cs[k]);
}

/// Appends `c` to `s`.
#[verifier::external_body]
pub(crate) fn push_char(s: &mut String, c: char)
    ensures
        final(s)@ == old(s)@.push(c),
{
    s.push(c);
}

proof fn lemma_with_prefix(p: Seq<char>, c: Seq<char>, r: Option<Result<Seq<char>, int>>)
    ensures
        with_prefix(p, with_prefix(c, r)) == with_prefix(p + c, r),
{
    match r {
        Some(Ok(s)) => {
            assert(p + (c + s) =~= (p + c) + s);
        },
        _ => {},
    }
}

/// Character `k` of `cs` is the ASCII character `lit`, whose byte is `a`,
/// exactly when the first byte of its encoding is `a`.
proof fn lemma_is_char(cs: Seq<char>, k: int, a: u8, lit: char)
    requires
        0 <= k < cs.len(),
        a < 0x80,
        lit as u32 == a as u32,
    ensures
        (encode_utf8(cs)[utf8_len(cs.take(k))] == a) == (cs[k] == lit),
{
    lemma_char_is(cs, k, a);
    if cs[k] as u32 == a as u32 {
        vstd::utf8::char_u32_cast(cs[k], a as u32);
        vstd::utf8::char_u32_cast(lit, a as u32);
    }
}

/// The ASCII character `k` of `cs` takes one byte: its own value.
proof fn lemma_ascii_char(cs: Seq<char>, k: int)
    requires
        0 <= k < cs.len(),
        (cs[k] as u32) < 0x80,
    ensures
        encode_utf8(cs)[utf8_len(cs.take(k))] as u32 == cs[k] as u32,
        utf8_len(cs.take(k + 1)) == utf8_len(cs.take(k)) + 1,
        utf8_len(cs.take(k + 1)) <= encode_utf8(cs).len(),
{
    let a = (cs[k] as u32) as u8;
    lemma_char_is(cs, k, a);
    lemma_char_at(cs, k);
}

proof fn lemma_take_none(cs: Seq<char>)
    ensures
        utf8_len(cs.take(0)) == 0,
{
    assert(cs.take(0) =~= Seq::<char>::empty());
}

/// Reads the text of a string literal: its opening delimiter (after an `r` for
/// a raw literal), its text with escape sequences, and its closing delimiter.
/// An invalid escape sequence gives an error with the byte position of its
/// backslash.
pub fn parse_string(source: &str) -> (r: Result<String, (String, usize)>)
    requires
        well_delimited(source@),
    ensures
        r is Ok <==> string_value(source@) matches Some(Ok(_)),
        r matches Ok(s) ==> string_value(source@) == Some(Ok::<Seq<char>, int>(s@)),
        r matches Err((m, o)) ==> m@ == "Invalid escape sequence"@ && (string_value(source@) matches Some(Err(k))
            && o == utf8_len(source@.take(k))),
{
    let bytes = source.as_bytes();
    let len = bytes.len();
    let ghost cs = source@;
    proof {
        lemma_take_none(cs);
        lemma_is_char(cs, 0, crate::parse::bytes::LOWER_R, 'r');
    }
    let raw = bytes[0] == crate::parse::bytes::LOWER_R;
    let delimiter_at: usize = if raw {
        1
    } else {
        0
    };
    proof {
        if raw {
            lemma_ascii_char(cs, 0);
        }
        assert(utf8_len(cs.take(delimiter_at as int)) == delimiter_at);
        lemma_ascii_char(cs, delimiter_at as int);
    }
    let delimiter_byte = bytes[delimiter_at];
    let ghost delimiter = cs[delimiter_at as int];
    let mut ci: usize = delimiter_at + 1;
    let mut bi: usize = delimiter_at + 1;
    let mut buf = String::new();
    proof {
        assert(buf@ + unescape(cs, ci as int, raw, delimiter)->Some_0->Ok_0 =~= unescape(
            cs,
            ci as int,
            raw,
            delimiter,
        )->Some_0->Ok_0);
    }
    loop
        invariant
            bytes@ == encode_utf8(cs),
            cs == source@,
            len == bytes@.len(),
            raw == is_raw(cs),
            delimiter == cs[text_start(cs) - 1],
            delimiter as u32 == delimiter_byte as u32,
            delimiter_byte < 0x80,
            ci <= bi,
            bi == utf8_len(cs.take(ci as int)),
            0 <= ci <= cs.len(),
            string_value(cs) is Some,
            string_value(cs) == with_prefix(buf@, unescape(cs, ci as int, raw, delimiter)),
        decreases cs.len() - ci,
    {
        let ghost prev = buf@;
        if bi >= len {
            proof {
                if ci < cs.len() {
                    lemma_char_at(cs, ci as int);
                }
            }
            return Ok(buf);
        }
        proof {
            if ci >= cs.len() {
                lemma_take_all(cs);
            }
            lemma_char_at(cs, ci as int);
            lemma_is_char(cs, ci as int, crate::parse::bytes::BACKSLASH, '\\');
            lemma_is_char(cs, ci as int, delimiter_byte, delimiter);
        }
        let c = bytes[bi];
        if c == crate::parse::bytes::BACKSLASH {
            proof {
                lemma_ascii_char(cs, ci as int);
            }
            if bi + 1 >= len {
                proof {
                    if ci + 1 < cs.len() {
                        lemma_char_at(cs, ci + 1);
                    }
                }
                return Ok(buf);
            }
            proof {
                if ci + 1 >= cs.len() {
                    lemma_take_all(cs);
                }
                lemma_char_at(cs, ci + 1);
                lemma_is_char(cs, ci + 1, crate::parse::bytes::BACKSLASH, '\\');
                lemma_is_char(cs, ci + 1, delimiter_byte, delimiter);
                lemma_is_char(cs, ci + 1, crate::parse::bytes::LOWER_N, 'n');
                lemma_is_char(cs, ci + 1, crate::parse::bytes::LOWER_T, 't');
            }
            let d = bytes[bi + 1];
            if d == crate::parse::bytes::BACKSLASH {
                proof {
                    lemma_ascii_char(cs, ci + 1);
                    lemma_with_prefix(buf@, seq!['\\'], unescape(cs, ci + 2, raw, delimiter));
                    assert(unescape(cs, ci as int, raw, delimiter) == with_prefix(seq!['\\'], unescape(cs, ci + 2, raw, delimiter)));
                }
                push_char(&mut buf, '\\');
                assert(buf@ =~= prev + seq!['\\']);
                bi += 2;
                ci += 2;
            } else if d == delimiter_byte {
                proof {
                    lemma_ascii_char(cs, ci + 1);
                    lemma_with_prefix(buf@, seq![delimiter], unescape(cs, ci + 2, raw, delimiter));
                    vstd::utf8::char_u32_cast(delimiter, delimiter_byte as u32);
                    assert(unescape(cs, ci as int, raw, delimiter) == with_prefix(seq![delimiter], unescape(cs, ci + 2, raw, delimiter)));
                }
                push_char(&mut buf, delimiter_byte as char);
                assert(buf@ =~= prev + seq![delimiter]);
                bi += 2;
                ci += 2;
            } else if raw {
                proof {
                    lemma_with_prefix(buf@, seq!['\\'], unescape(cs, ci + 1, raw, delimiter));
                    assert(unescape(cs, ci as int, raw, delimiter) == with_prefix(seq!['\\'], unescape(cs, ci + 1, raw, delimiter)));
                }
                push_char(&mut buf, '\\');
                assert(buf@ =~= prev + seq!['\\']);
                bi += 1;
                ci += 1;
            } else if d == crate::parse::bytes::LOWER_N {
                proof {
                    lemma_ascii_char(cs, ci + 1);
                    lemma_with_prefix(buf@, seq!['\n'], unescape(cs, ci + 2, raw, delimiter));
                    assert(unescape(cs, ci as int, raw, delimiter) == with_prefix(seq!['\n'], unescape(cs, ci + 2, raw, delimiter)));
                }
                push_char(&mut buf, '\n');
                assert(buf@ =~= prev + seq!['\n']);
                bi += 2;
                ci += 2;
            } else if d == crate::parse::bytes::LOWER_T {
                proof {
                    lemma_ascii_char(cs, ci + 1);
                    lemma_with_prefix(buf@, seq!['\t'], unescape(cs, ci + 2, raw, delimiter));
                    assert(unescape(cs, ci as int, raw, delimiter) == with_prefix(seq!['\t'], unescape(cs, ci + 2, raw, delimiter)));
                }
                push_char(&mut buf, '\t');
                assert(buf@ =~= prev + seq!['\t']);
                bi += 2;
                ci += 2;
            } else {
                return Err((error_message("Invalid escape sequence"), bi));
            }
        } else if c == delimiter_byte {
            proof {
                assert(buf@ + seq![] =~= buf@);
            }
            return Ok(buf);
        } else {
            let w = utf8_width(c);
            let ch = if c < 0x80 {
                c as char
            } else {
                source.get_char(ci)
            };
            proof {
                if c < 0x80 {
                    lemma_char_is(cs, ci as int, c);
                    vstd::utf8::char_u32_cast(cs[ci as int], c as u32);
                }
                lemma_with_prefix(buf@, seq![cs[ci as int]], unescape(cs, ci + 1, raw, delimiter));
                assert(unescape(cs, ci as int, raw, delimiter) == with_prefix(seq![cs[ci as int]], unescape(cs, ci + 1, raw, delimiter)));
            }
            push_char(&mut buf, ch);
                assert(buf@ =~= prev + seq![cs[ci as int]]);
            bi += w;
            ci += 1;
        }
    }
}

} // verus!
