//! Finding the line of a source text that a character offset falls on.

use vstd::prelude::*;
use vstd::string::*;
use vstd::utf8::*;
use crate::parse::bytes::{NEWLINE, char_width, utf8_width};

verus! {

/// The number of bytes that `cs` takes in UTF-8.
pub open spec fn utf8_len(cs: Seq<char>) -> int {
    encode_utf8(cs).len() as int
}

/// The number of newlines in `cs`.
pub open spec fn count_newlines(cs: Seq<char>) -> nat
    decreases cs.len(),
{
    if cs.len() == 0 {
        0
    } else {
        count_newlines(cs.drop_last()) + if cs.last() == '\n' {
            1nat
        } else {
            0nat
        }
    }
}

/// The index of the first character of the line that character `k` is on:
/// just after the last newline before `k`, or 0.
pub open spec fn line_start(cs: Seq<char>, k: int) -> int
    decreases k,
{
    if k <= 0 {
        0
    } else if cs[k - 1] == '\n' {
        k
    } else {
        line_start(cs, k - 1)
    }
}

/// The index of the first newline at or after character `k`, or the number of
/// characters when there is none.
pub open spec fn first_newline(cs: Seq<char>, k: int) -> int
    decreases cs.len() - k,
{
    if !(0 <= k < cs.len()) {
        cs.len() as int
    } else if cs[k] == '\n' {
        k
    } else {
        first_newline(cs, k + 1)
    }
}

/// The line that character `offset` of a source falls on. `no` counts from 1;
/// `offset`, `start` and `end` are byte positions: that of the character, of the
/// start of the line, and of the newline that ends it (or the end of the
/// source). An offset past the last character stands for the end of the source.
pub struct Line {
    pub no: usize,
    pub offset: usize,
    pub start: usize,
    pub end: usize,
}

/// The line that character `offset` of `cs` falls on, as (no, offset, start, end).
pub open spec fn line_of(cs: Seq<char>, offset: int) -> (int, int, int, int) {
    let k: int = if offset < cs.len() {
        offset
    } else {
        cs.len() as int
    };
    (
        1 + count_newlines(cs.take(k)) as int,
        utf8_len(cs.take(k)),
        utf8_len(cs.take(line_start(cs, k))),
        utf8_len(cs.take(first_newline(cs, k))),
    )
}

// LEMMAS //////////////////////////////////////////////////////////////////////////////////////////

pub(crate) proof fn lemma_encode_concat(a: Seq<char>, b: Seq<char>)
    ensures
        encode_utf8(a + b) == encode_utf8(a) + encode_utf8(b),
    decreases a.len(),
{
    if a.len() == 0 {
        assert(a + b =~= b);
        assert(encode_utf8(a) + encode_utf8(b) =~= encode_utf8(b));
    } else {
        lemma_encode_concat(a.drop_first(), b);
        assert((a + b).drop_first() =~= a.drop_first() + b);
        assert(encode_utf8(a) + encode_utf8(b) =~= encode_scalar(a[0] as u32) + (encode_utf8(
            a.drop_first(),
        ) + encode_utf8(b)));
    }
}

proof fn lemma_newline_bytes(c: char, byte: u8)
    requires
        byte == encode_scalar(c as u32)[0],
    ensures
        (byte == NEWLINE) == (c == '\n'),
{
    char_is_scalar(c);
    let v = c as u32;
    if has_width_1_encoding(v) {
        assert(byte == leading_byte_width_1(v));
        assert(v <= 0x7f ==> ((v & 0x7f) as u8 == 10u8 <==> v == 10)) by (bit_vector);
    } else if has_width_2_encoding(v) {
        assert(byte == leading_byte_width_2(v));
        assert(0xC0u8 | ((v >> 6) & 0x1F) as u8 != 10u8) by (bit_vector);
    } else if has_width_3_encoding(v) {
        assert(byte == leading_byte_width_3(v));
        assert(0xE0u8 | ((v >> 12) & 0x0F) as u8 != 10u8) by (bit_vector);
    } else {
        assert(byte == leading_byte_width_4(v));
        assert(0xF0u8 | ((v >> 18) & 0x7) as u8 != 10u8) by (bit_vector);
    }
}

/// Character `k` of `cs` starts at byte `utf8_len(cs.take(k))` of the UTF-8
/// encoding of `cs`; its width can be read from that byte, and it is a newline
/// exactly when that byte is one.
pub(crate) proof fn lemma_char_at(cs: Seq<char>, k: int)
    requires
        0 <= k < cs.len(),
    ensures
        ({
            let b = encode_utf8(cs);
            let i = utf8_len(cs.take(k));
            &&& 0 <= i < b.len()
            &&& i + char_width(b[i]) == utf8_len(cs.take(k + 1))
            &&& utf8_len(cs.take(k + 1)) <= b.len()
            &&& (b[i] == NEWLINE) == (cs[k] == '\n')
        }),
{
    let b = encode_utf8(cs);
    let rest = cs.skip(k);
    lemma_encode_concat(cs.take(k), rest);
    assert(cs.take(k) + rest =~= cs);
    let r = encode_utf8(rest);
    encode_utf8_first_scalar(rest);
    assert(rest[0] == cs[k]);
    let i = utf8_len(cs.take(k));
    assert(r.len() > 0);
    assert(b[i] == r[0]);
    lemma_encode_concat(cs.take(k), seq![cs[k]]);
    assert(cs.take(k + 1) =~= cs.take(k) + seq![cs[k]]);
    assert(encode_utf8(seq![cs[k]]) =~= encode_scalar(cs[k] as u32)) by {
        assert(seq![cs[k]].drop_first() =~= Seq::<char>::empty());
        assert(encode_utf8(Seq::<char>::empty()) =~= Seq::<u8>::empty());
        assert(encode_scalar(cs[k] as u32) + Seq::<u8>::empty() =~= encode_scalar(cs[k] as u32));
    }
    lemma_encode_concat(cs.take(k + 1), cs.skip(k + 1));
    assert(cs.take(k + 1) + cs.skip(k + 1) =~= cs);
    assert(encode_scalar(cs[k] as u32) =~= r.subrange(0, encode_scalar(cs[k] as u32).len() as int))
        by {
        lemma_encode_concat(seq![cs[k]], cs.skip(k + 1));
        assert(seq![cs[k]] + cs.skip(k + 1) =~= rest);
    }
    lemma_newline_bytes(cs[k], r[0]);
}

pub(crate) proof fn lemma_take_all(cs: Seq<char>)
    ensures
        cs.take(cs.len() as int) == cs,
{
    assert(cs.take(cs.len() as int) =~= cs);
}

proof fn lemma_count_step(cs: Seq<char>, k: int)
    requires
        0 <= k < cs.len(),
    ensures
        count_newlines(cs.take(k + 1)) == count_newlines(cs.take(k)) + if cs[k] == '\n' {
            1nat
        } else {
            0nat
        },
        line_start(cs, k + 1) == if cs[k] == '\n' {
            k + 1
        } else {
            line_start(cs, k)
        },
{
    assert(cs.take(k + 1).drop_last() =~= cs.take(k));
}

proof fn lemma_utf8_len_monotonic(cs: Seq<char>, i: int, j: int)
    requires
        0 <= i <= j <= cs.len(),
    ensures
        utf8_len(cs.take(i)) <= utf8_len(cs.take(j)),
{
    lemma_encode_concat(cs.take(i), cs.subrange(i, j));
    assert(cs.take(i) + cs.subrange(i, j) =~= cs.take(j));
}

proof fn lemma_line_start_bounds(cs: Seq<char>, k: int)
    requires
        0 <= k,
    ensures
        0 <= line_start(cs, k) <= k,
    decreases k,
{
    if k > 0 && cs[k - 1] != '\n' {
        lemma_line_start_bounds(cs, k - 1);
    }
}

proof fn lemma_first_newline_bounds(cs: Seq<char>, k: int)
    requires
        0 <= k <= cs.len(),
    ensures
        k <= first_newline(cs, k) <= cs.len(),
    decreases cs.len() - k,
{
    if 0 <= k < cs.len() && cs[k] != '\n' {
        lemma_first_newline_bounds(cs, k + 1);
    }
}

/// The line found for an offset starts at or before the offset's byte and
/// ends at or after it, within the source.
pub proof fn lemma_line_contains_offset(cs: Seq<char>, offset: int)
    requires
        0 <= offset,
    ensures
        ({
            let (no, o, start, end) = line_of(cs, offset);
            &&& 1 <= no
            &&& 0 <= start <= o <= end <= encode_utf8(cs).len()
        }),
{
    let k: int = if offset < cs.len() {
        offset
    } else {
        cs.len() as int
    };
    lemma_line_start_bounds(cs, k);
    lemma_first_newline_bounds(cs, k);
    lemma_utf8_len_monotonic(cs, line_start(cs, k), k);
    lemma_utf8_len_monotonic(cs, k, first_newline(cs, k));
    lemma_utf8_len_monotonic(cs, first_newline(cs, k), cs.len() as int);
    lemma_take_all(cs);
}

proof fn lemma_line_start_newlines(cs: Seq<char>, k: int)
    requires
        0 <= k <= cs.len(),
    ensures
        line_start(cs, k) > 0 ==> cs[line_start(cs, k) - 1] == '\n',
        forall|i: int| line_start(cs, k) <= i < k ==> cs[i] != '\n',
    decreases k,
{
    if k > 0 && cs[k - 1] != '\n' {
        lemma_line_start_newlines(cs, k - 1);
    }
}

proof fn lemma_first_newline_newlines(cs: Seq<char>, k: int)
    requires
        0 <= k <= cs.len(),
    ensures
        first_newline(cs, k) < cs.len() ==> cs[first_newline(cs, k)] == '\n',
        forall|i: int| k <= i < first_newline(cs, k) ==> cs[i] != '\n',
    decreases cs.len() - k,
{
    if 0 <= k < cs.len() && cs[k] != '\n' {
        lemma_first_newline_newlines(cs, k + 1);
    }
}

/// The line that character `k` falls on runs from just after the last newline
/// before `k` (or the start of the source) to the first newline at or after
/// `k` (or the end of the source), with no newline in between; and its number
/// is one more than the count of newlines before `k`.
pub proof fn lemma_line_boundaries(cs: Seq<char>, k: int)
    requires
        0 <= k <= cs.len(),
    ensures
        0 <= line_start(cs, k) <= k <= first_newline(cs, k) <= cs.len(),
        line_start(cs, k) > 0 ==> cs[line_start(cs, k) - 1] == '\n',
        first_newline(cs, k) < cs.len() ==> cs[first_newline(cs, k)] == '\n',
        forall|i: int| line_start(cs, k) <= i < first_newline(cs, k) ==> cs[i] != '\n',
        line_of(cs, k).0 == 1 + count_newlines(cs.take(k)),
{
    lemma_line_start_bounds(cs, k);
    lemma_first_newline_bounds(cs, k);
    lemma_line_start_newlines(cs, k);
    lemma_first_newline_newlines(cs, k);
}

// EXECUTABLE CODE /////////////////////////////////////////////////////////////////////////////////

/// Finds the line that character `offset` of `source` falls on.
pub fn find_line(source: &str, offset: usize) -> (line: Line)
    requires
        source.spec_bytes().len() < usize::MAX,
    ensures
        (line.no as int, line.offset as int, line.start as int, line.end as int) == line_of(
            source@,
            offset as int,
        ),
{
    let bytes = source.as_bytes();
    let len = bytes.len();
    let ghost cs = source@;
    let mut ci: usize = 0;
    let mut bi: usize = 0;
    let mut no: usize = 1;
    let mut start: usize = 0;
    loop
        invariant
            bytes@ == encode_utf8(cs),
            len == bytes@.len(),
            cs == source@,
            0 <= ci <= cs.len(),
            ci <= offset,
            bi == utf8_len(cs.take(ci as int)),
            ci <= bi <= len,
            len < usize::MAX,
            no == 1 + count_newlines(cs.take(ci as int)),
            no <= ci + 1,
            start == utf8_len(cs.take(line_start(cs, ci as int))),
        decreases len - bi,
    {
        if bi >= len {
            proof {
                if ci < cs.len() {
                    lemma_char_at(cs, ci as int);
                }
                lemma_take_all(cs);
                assert(first_newline(cs, ci as int) == cs.len());
            }
            return Line { no: no, offset: len, start: start, end: len };
        }
        proof {
            lemma_take_all(cs);
            lemma_char_at(cs, ci as int);
        }
        let c = bytes[bi];
        let w = utf8_width(c);
        if ci == offset {
            if c == NEWLINE {
                return Line { no: no, offset: bi, start: start, end: bi };
            }
            let end = end_of_line(source, ci + 1, bi + w);
            return Line { no: no, offset: bi, start: start, end: end };
        }
        proof {
            lemma_count_step(cs, ci as int);
        }
        bi += w;
        ci += 1;
        if c == NEWLINE {
            start = bi;
            no += 1;
        }
    }
}

/// The byte position of the first newline at or after character `ci`, which
/// starts at byte `bi`; the end of the source when there is none.
fn end_of_line(source: &str, from_char: usize, from_byte: usize) -> (end: usize)
    requires
        from_char <= source@.len(),
        from_byte == utf8_len(source@.take(from_char as int)),
        from_char <= from_byte <= source.spec_bytes().len(),
    ensures
        end == utf8_len(source@.take(first_newline(source@, from_char as int))),
{
    let bytes = source.as_bytes();
    let len = bytes.len();
    let ghost cs = source@;
    let mut ci = from_char;
    let mut bi = from_byte;
    let ghost ci0 = from_char as int;
    loop
        invariant
            bytes@ == encode_utf8(cs),
            len == bytes@.len(),
            cs == source@,
            0 <= ci <= cs.len(),
            bi == utf8_len(cs.take(ci as int)),
            ci <= bi <= len,
            first_newline(cs, ci as int) == first_newline(cs, ci0),
            ci0 == from_char,
        decreases cs.len() - ci,
    {
        if bi >= len {
            proof {
                if ci < cs.len() {
                    lemma_char_at(cs, ci as int);
                }
                lemma_take_all(cs);
            }
            return len;
        }
        proof {
            lemma_take_all(cs);
            lemma_char_at(cs, ci as int);
        }
        let c = bytes[bi];
        if c == NEWLINE {
            return bi;
        }
        bi += utf8_width(c);
        ci += 1;
    }
}

} // verus!
