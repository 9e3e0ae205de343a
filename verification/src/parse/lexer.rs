//! The lexer: it reads Burn source text one token at a time.

use vstd::prelude::*;
use vstd::string::*;
use vstd::utf8::*;
use crate::parse::bytes::{
    ASTERISK, BACKSLASH, BANG, COMMA, DASH, DIGIT_0, DOLLAR, DOT, DOUBLE_QUOTE, EQUALS, LEFT_ANGLE,
    LEFT_CURLY, LEFT_PAREN, LEFT_SQUARE, NEWLINE, PERCENT, PLUS, RIGHT_ANGLE, RIGHT_CURLY,
    RIGHT_PAREN, RIGHT_SQUARE, SLASH, SPACE, TAB, VERTICAL_BAR, char_width, is_digit,
    is_name_char, is_name_start, digit, name_char, substring, utf8_width, lemma_after_ascii,
    lemma_str_valid_utf8, name_start,
};
use crate::parse::token::Token;

verus! {

// SPECIFICATION ///////////////////////////////////////////////////////////////////////////////////

/// Byte `i` of `b` exists and is `c`.
pub open spec fn is_at(b: Seq<u8>, i: int, c: u8) -> bool {
    0 <= i < b.len() && b[i] == c
}

/// Byte `i` of `b` exists and is a decimal digit.
pub open spec fn is_digit_at(b: Seq<u8>, i: int) -> bool {
    0 <= i < b.len() && is_digit(b[i])
}

/// The number of consecutive bytes of `b`, from byte `i` on, that satisfy `class`.
pub open spec fn run(b: Seq<u8>, i: int, class: spec_fn(u8) -> bool) -> nat
    decreases b.len() - i,
{
    if 0 <= i < b.len() && class(b[i]) {
        1 + run(b, i + 1, class)
    } else {
        0
    }
}

pub open spec fn name_chars() -> spec_fn(u8) -> bool {
    |c: u8| is_name_char(c)
}

pub open spec fn digits() -> spec_fn(u8) -> bool {
    |c: u8| is_digit(c)
}

pub open spec fn asterisks() -> spec_fn(u8) -> bool {
    |c: u8| c == ASTERISK
}

/// Where a block comment ends, scanning from byte `j` with `found` asterisks
/// just seen: after the first `/` that follows exactly `stars` asterisks, or at
/// the end of the source.
pub open spec fn block_comment_end(b: Seq<u8>, j: int, found: int, stars: int) -> int
    decreases b.len() - j,
{
    if !(0 <= j < b.len()) {
        j
    } else if b[j] == ASTERISK {
        block_comment_end(b, j + 1, found + 1, stars)
    } else if b[j] == SLASH && found == stars {
        j + 1
    } else {
        block_comment_end(b, j + 1, 0, stars)
    }
}

/// Where a line comment ends, scanning from byte `j`: after the next newline,
/// or at the end of the source.
pub open spec fn line_comment_end(b: Seq<u8>, j: int) -> int
    decreases b.len() - j,
{
    if !(0 <= j < b.len()) {
        j
    } else if b[j] == NEWLINE {
        j + 1
    } else {
        line_comment_end(b, j + 1)
    }
}

/// The position after the space, tab or comment that starts at byte `i`, or `i`
/// when none starts there. A block comment opens with `/` and one or more `*`,
/// and closes with as many `*` followed by `/`.
pub open spec fn skip_step(b: Seq<u8>, i: int) -> int {
    if is_at(b, i, SPACE) || is_at(b, i, TAB) {
        i + 1
    } else if is_at(b, i, SLASH) && is_at(b, i + 1, ASTERISK) {
        let n: int = run(b, i + 2, asterisks()) as int;
        block_comment_end(b, i + 2 + n, 0, 1 + n)
    } else if is_at(b, i, SLASH) && is_at(b, i + 1, SLASH) {
        line_comment_end(b, i + 2)
    } else {
        i
    }
}

/// The position of the first byte, from byte `i` on, that is not part of
/// whitespace or a comment.
pub open spec fn skip(b: Seq<u8>, i: int) -> int
    decreases b.len() - i,
{
    if 0 <= i < b.len() && i < skip_step(b, i) <= b.len() {
        skip(b, skip_step(b, i))
    } else {
        i
    }
}

/// The keyword spelled by `w`, if any.
pub open spec fn keyword(w: Seq<u8>) -> Option<Token<Seq<u8>>> {
    if w == seq![97u8, 110, 100] {
        Some(Token::And)
    } else if w == seq![99u8, 97, 116, 99, 104] {
        Some(Token::Catch)
    } else if w == seq![99u8, 108, 97, 115, 115] {
        Some(Token::Class)
    } else if w == seq![101u8, 108, 115, 101] {
        Some(Token::Else)
    } else if w == seq![101u8, 120, 116, 101, 110, 100, 115] {
        Some(Token::Extends)
    } else if w == seq![102u8, 97, 108, 115, 101] {
        Some(Token::False)
    } else if w == seq![102u8, 105, 110, 97, 108, 108, 121] {
        Some(Token::Finally)
    } else if w == seq![102u8, 111, 114] {
        Some(Token::For)
    } else if w == seq![102u8, 117, 110, 99, 116, 105, 111, 110] {
        Some(Token::Function)
    } else if w == seq![105u8, 102] {
        Some(Token::If)
    } else if w == seq![105u8, 109, 112, 111, 114, 116] {
        Some(Token::Import)
    } else if w == seq![105u8, 110] {
        Some(Token::In)
    } else if w == seq![105u8, 115] {
        Some(Token::Is)
    } else if w == seq![108u8, 101, 116] {
        Some(Token::Let)
    } else if w == seq![110u8, 101, 119] {
        Some(Token::New)
    } else if w == seq![110u8, 111, 116] {
        Some(Token::Not)
    } else if w == seq![110u8, 111, 116, 104, 105, 110, 103] {
        Some(Token::Nothing)
    } else if w == seq![111u8, 114] {
        Some(Token::Or)
    } else if w == seq![112u8, 114, 105, 110, 116] {
        Some(Token::Print)
    } else if w == seq![114u8, 101, 116, 117, 114, 110] {
        Some(Token::Return)
    } else if w == seq![116u8, 104, 105, 115] {
        Some(Token::This)
    } else if w == seq![116u8, 104, 114, 111, 119] {
        Some(Token::Throw)
    } else if w == seq![116u8, 114, 117, 101] {
        Some(Token::True)
    } else if w == seq![116u8, 114, 121] {
        Some(Token::Try)
    } else if w == seq![119u8, 104, 105, 108, 101] {
        Some(Token::While)
    } else {
        None
    }
}

/// Where a string literal whose opening quote precedes byte `q` ends: after the
/// closing `"`. A backslash escapes the byte after it. `None` when the source
/// ends first.
pub open spec fn string_end(b: Seq<u8>, q: int) -> Option<int>
    decreases b.len() + 4 - q,
{
    if !(0 <= q < b.len()) {
        None
    } else if b[q] == BACKSLASH {
        string_end(b, q + 2)
    } else if b[q] == DOUBLE_QUOTE {
        Some(q + 1)
    } else {
        string_end(b, q + char_width(b[q]))
    }
}

/// The number literal at byte `p`: an optional `-`, then digits without a
/// leading zero, then optionally `.` and one or more digits.
pub open spec fn number_at(b: Seq<u8>, p: int) -> (Token<Seq<u8>>, int) {
    let q: int = if b[p] == DASH { p + 1 } else { p };
    if b[q] == DIGIT_0 && is_digit_at(b, q + 1) {
        (Token::Error("Invalid number literal."), 0)
    } else {
        let i: int = q + 1 + run(b, q + 1, digits());
        if is_at(b, i, DOT) && is_digit_at(b, i + 1) {
            let e: int = i + 2 + run(b, i + 2, digits());
            (Token::Float(b.subrange(p, e)), e - p)
        } else {
            (Token::Integer(b.subrange(p, i)), i - p)
        }
    }
}

/// A symbol of one byte, or of two when its second byte is `second`.
pub open spec fn symbol(
    b: Seq<u8>,
    p: int,
    second: u8,
    long: Token<Seq<u8>>,
    short: Token<Seq<u8>>,
) -> (Token<Seq<u8>>, int) {
    if is_at(b, p + 1, second) {
        (long, 2)
    } else {
        (short, 1)
    }
}

/// The token that starts at byte `p`, with the number of bytes it takes.
pub open spec fn token_at(b: Seq<u8>, p: int) -> (Token<Seq<u8>>, int) {
    let c: u8 = b[p];
    if c == NEWLINE {
        (Token::Newline, 1)
    } else if c == LEFT_CURLY {
        (Token::LeftCurlyBracket, 1)
    } else if c == RIGHT_CURLY {
        (Token::RightCurlyBracket, 1)
    } else if c == LEFT_SQUARE {
        (Token::LeftSquareBracket, 1)
    } else if c == RIGHT_SQUARE {
        (Token::RightSquareBracket, 1)
    } else if c == LEFT_PAREN {
        (Token::LeftParenthesis, 1)
    } else if c == RIGHT_PAREN {
        (Token::RightParenthesis, 1)
    } else if c == DOT {
        (Token::Dot, 1)
    } else if c == COMMA {
        (Token::Comma, 1)
    } else if c == EQUALS {
        symbol(b, p, EQUALS, Token::EqualsEquals, Token::Equals)
    } else if c == LEFT_ANGLE {
        symbol(b, p, EQUALS, Token::LeftAngleBracketEquals, Token::LeftAngleBracket)
    } else if c == RIGHT_ANGLE {
        symbol(b, p, EQUALS, Token::RightAngleBracketEquals, Token::RightAngleBracket)
    } else if c == BANG {
        symbol(b, p, EQUALS, Token::BangEquals, Token::Error("Unexpected `!`."))
    } else if c == PLUS {
        symbol(b, p, EQUALS, Token::PlusEquals, Token::Plus)
    } else if c == DASH {
        if is_digit_at(b, p + 1) {
            number_at(b, p)
        } else if is_at(b, p + 1, EQUALS) {
            (Token::DashEquals, 2)
        } else if is_at(b, p + 1, RIGHT_ANGLE) {
            (Token::Arrow, 2)
        } else {
            (Token::Dash, 1)
        }
    } else if c == ASTERISK {
        symbol(b, p, EQUALS, Token::AsteriskEquals, Token::Asterisk)
    } else if c == SLASH {
        symbol(b, p, EQUALS, Token::SlashEquals, Token::Slash)
    } else if c == PERCENT {
        symbol(b, p, EQUALS, Token::PercentEquals, Token::Percent)
    } else if c == VERTICAL_BAR {
        (Token::VerticalBar, 1)
    } else if is_name_start(c) {
        let n: int = 1 + run(b, p + 1, name_chars()) as int;
        let w = b.subrange(p, p + n);
        match keyword(w) {
            Some(k) => (k, n),
            None => (Token::Identifier(w), n),
        }
    } else if c == DOLLAR {
        let n: int = run(b, p + 1, name_chars()) as int;
        if n == 0 {
            (Token::Error("Unexpected `$`."), 0)
        } else {
            (Token::Variable(b.subrange(p + 1, p + 1 + n)), 1 + n)
        }
    } else if c == DOUBLE_QUOTE {
        match string_end(b, p + 1) {
            Some(e) => (Token::String(b.subrange(p, e)), e - p),
            None => (Token::Error("Unterminated string literal."), 0),
        }
    } else if is_digit(c) {
        number_at(b, p)
    } else {
        (Token::Error("Unexpected character."), 0)
    }
}

/// What reading at offset `o` gives: the next token after whitespace and
/// comments, and the offset just past it.
pub open spec fn read_at(b: Seq<u8>, o: int) -> (Token<Seq<u8>>, int) {
    let p: int = skip(b, o);
    if 0 <= p < b.len() {
        let (t, n) = token_at(b, p);
        (t, p + n)
    } else {
        (Token::Eof, p)
    }
}

// LEMMAS //////////////////////////////////////////////////////////////////////////////////////////

proof fn lemma_run_bounds(b: Seq<u8>, i: int, class: spec_fn(u8) -> bool)
    requires
        0 <= i <= b.len(),
    ensures
        i + run(b, i, class) <= b.len(),
        forall|k: int| i <= k < i + run(b, i, class) ==> #[trigger] class(b[k]),
        i + run(b, i, class) < b.len() ==> !class(b[i + run(b, i, class)]),
    decreases b.len() - i,
{
    if 0 <= i < b.len() && class(b[i]) {
        lemma_run_bounds(b, i + 1, class);
    }
}

proof fn lemma_block_comment_end(b: Seq<u8>, j: int, found: int, stars: int)
    requires
        0 <= j <= b.len(),
    ensures
        j <= block_comment_end(b, j, found, stars) <= b.len(),
    decreases b.len() - j,
{
    if 0 <= j < b.len() {
        if b[j] == ASTERISK {
            lemma_block_comment_end(b, j + 1, found + 1, stars);
        } else if b[j] == SLASH && found == stars {
        } else {
            lemma_block_comment_end(b, j + 1, 0, stars);
        }
    }
}

proof fn lemma_line_comment_end(b: Seq<u8>, j: int)
    requires
        0 <= j <= b.len(),
    ensures
        j <= line_comment_end(b, j) <= b.len(),
    decreases b.len() - j,
{
    if 0 <= j < b.len() && b[j] != NEWLINE {
        lemma_line_comment_end(b, j + 1);
    }
}

proof fn lemma_string_end(b: Seq<u8>, q: int)
    requires
        0 <= q,
    ensures
        string_end(b, q) matches Some(e) ==> q < e <= b.len() && b[e - 1] == DOUBLE_QUOTE,
    decreases b.len() + 4 - q,
{
    if 0 <= q < b.len() {
        if b[q] == BACKSLASH {
            lemma_string_end(b, q + 2);
        } else if b[q] == DOUBLE_QUOTE {
        } else {
            lemma_string_end(b, q + char_width(b[q]));
        }
    }
}

/// The step of `skip` at `i` moves forward and stays within the source.
proof fn lemma_skip_step(b: Seq<u8>, i: int)
    requires
        0 <= i < b.len(),
    ensures
        i <= skip_step(b, i) <= b.len(),
        (is_at(b, i, SPACE) || is_at(b, i, TAB) || (is_at(b, i, SLASH) && (is_at(b, i + 1, ASTERISK)
            || is_at(b, i + 1, SLASH)))) ==> i < skip_step(b, i),
{
    if is_at(b, i, SPACE) || is_at(b, i, TAB) {
    } else if is_at(b, i, SLASH) && is_at(b, i + 1, ASTERISK) {
        lemma_run_bounds(b, i + 2, asterisks());
        let n: int = run(b, i + 2, asterisks()) as int;
        lemma_block_comment_end(b, i + 2 + n, 0, 1 + n);
    } else if is_at(b, i, SLASH) && is_at(b, i + 1, SLASH) {
        lemma_line_comment_end(b, i + 2);
    }
}


// EXECUTABLE CODE /////////////////////////////////////////////////////////////////////////////////

/// Reads tokens from a source text, one at a time, from `offset` on.
pub struct Lexer<'src> {
    pub source: &'src str,
    pub offset: usize,
}

/// The end of the run of name characters in `bytes` that starts at `i`.
fn name_run_end(bytes: &[u8], i: usize) -> (r: usize)
    requires
        i <= bytes@.len(),
    ensures
        r == i + run(bytes@, i as int, name_chars()),
{
    let mut j = i;
    while j < bytes.len() && name_char(bytes[j])
        invariant
            i <= j <= bytes@.len(),
            run(bytes@, i as int, name_chars()) == (j - i) + run(bytes@, j as int, name_chars()),
        decreases bytes@.len() - j,
    {
        j += 1;
    }
    j
}

/// The end of the run of decimal digits in `bytes` that starts at `i`.
fn digit_run_end(bytes: &[u8], i: usize) -> (r: usize)
    requires
        i <= bytes@.len(),
    ensures
        r == i + run(bytes@, i as int, digits()),
{
    let mut j = i;
    while j < bytes.len() && digit(bytes[j])
        invariant
            i <= j <= bytes@.len(),
            run(bytes@, i as int, digits()) == (j - i) + run(bytes@, j as int, digits()),
        decreases bytes@.len() - j,
    {
        j += 1;
    }
    j
}

/// The position after the block comment that starts at byte `i`.
fn block_comment(bytes: &[u8], i: usize) -> (r: usize)
    requires
        i + 1 < bytes@.len(),
        bytes@[i as int] == SLASH,
        bytes@[i + 1] == ASTERISK,
    ensures
        r == skip_step(bytes@, i as int),
{
    let ghost b = bytes@;
    let len = bytes.len();
    let mut j = i + 2;
    let mut stars: usize = 1;
    while j < bytes.len() && bytes[j] == ASTERISK
        invariant
            i + 2 <= j <= b.len(),
            b == bytes@,
            stars == 1 + (j - (i + 2)),
            run(b, i + 2, asterisks()) == (j - (i + 2)) + run(b, j as int, asterisks()),
        decreases b.len() - j,
    {
        j += 1;
        stars += 1;
    }
    assert(skip_step(b, i as int) == block_comment_end(b, j as int, 0, stars as int));
    let mut found: usize = 0;
    loop
        invariant
            i + 2 <= j <= b.len(),
            b == bytes@,
            found <= j,
            block_comment_end(b, j as int, found as int, stars as int) == skip_step(b, i as int),
        decreases b.len() - j,
    {
        if j >= bytes.len() {
            return j;
        }
        let c = bytes[j];
        if c == ASTERISK {
            found += 1;
            j += 1;
        } else if c == SLASH && found == stars {
            return j + 1;
        } else {
            found = 0;
            j += 1;
        }
    }
}

/// The position after the line comment whose text starts at byte `j`.
fn line_comment(bytes: &[u8], j: usize) -> (r: usize)
    requires
        j <= bytes@.len(),
    ensures
        r == line_comment_end(bytes@, j as int),
{
    let mut k = j;
    loop
        invariant
            j <= k <= bytes@.len(),
            line_comment_end(bytes@, k as int) == line_comment_end(bytes@, j as int),
        decreases bytes@.len() - k,
    {
        if k >= bytes.len() {
            return k;
        }
        if bytes[k] == NEWLINE {
            return k + 1;
        }
        k += 1;
    }
}

/// Whether bytes `start` to `start + n` of `bytes` spell `word`.
fn spells(bytes: &[u8], start: usize, n: usize, word: &[u8]) -> (r: bool)
    requires
        start + n <= bytes@.len(),
    ensures
        r == (bytes@.subrange(start as int, start + n) == word@),
{
    if n != word.len() {
        proof {
            assert(bytes@.subrange(start as int, start + n).len() != word@.len());
        }
        return false;
    }
    let len = bytes.len();
    let mut i: usize = 0;
    while i < n
        invariant
            len == bytes@.len(),
            i <= n,
            n == word@.len(),
            start + n <= bytes@.len(),
            forall|k: int| 0 <= k < i ==> bytes@[start + k] == word@[k],
        decreases n - i,
    {
        if bytes[start + i] != word[i] {
            proof {
                assert(bytes@.subrange(start as int, start + n)[i as int] != word@[i as int]);
            }
            return false;
        }
        i += 1;
    }
    proof {
        assert(bytes@.subrange(start as int, start + n) =~= word@);
    }
    true
}

/// The keyword spelled by bytes `start` to `start + n` of `bytes`, if any.
fn keyword_token<'a>(bytes: &[u8], start: usize, n: usize) -> (r: Option<Token<&'a str>>)
    requires
        start + n <= bytes@.len(),
    ensures
        r is Some <==> keyword(bytes@.subrange(start as int, start + n)) is Some,
        r matches Some(t) ==> Some(t.model()) == keyword(bytes@.subrange(start as int, start + n)),
{
    let ghost w = bytes@.subrange(start as int, start + n);
    if spells(bytes, start, n, &[97u8, 110, 100]) {
        return Some(Token::And);
    }
    if spells(bytes, start, n, &[99u8, 97, 116, 99, 104]) {
        return Some(Token::Catch);
    }
    if spells(bytes, start, n, &[99u8, 108, 97, 115, 115]) {
        return Some(Token::Class);
    }
    if spells(bytes, start, n, &[101u8, 108, 115, 101]) {
        return Some(Token::Else);
    }
    if spells(bytes, start, n, &[101u8, 120, 116, 101, 110, 100, 115]) {
        return Some(Token::Extends);
    }
    if spells(bytes, start, n, &[102u8, 97, 108, 115, 101]) {
        return Some(Token::False);
    }
    if spells(bytes, start, n, &[102u8, 105, 110, 97, 108, 108, 121]) {
        return Some(Token::Finally);
    }
    if spells(bytes, start, n, &[102u8, 111, 114]) {
        return Some(Token::For);
    }
    if spells(bytes, start, n, &[102u8, 117, 110, 99, 116, 105, 111, 110]) {
        return Some(Token::Function);
    }
    if spells(bytes, start, n, &[105u8, 102]) {
        return Some(Token::If);
    }
    if spells(bytes, start, n, &[105u8, 109, 112, 111, 114, 116]) {
        return Some(Token::Import);
    }
    if spells(bytes, start, n, &[105u8, 110]) {
        return Some(Token::In);
    }
    if spells(bytes, start, n, &[105u8, 115]) {
        return Some(Token::Is);
    }
    if spells(bytes, start, n, &[108u8, 101, 116]) {
        return Some(Token::Let);
    }
    if spells(bytes, start, n, &[110u8, 101, 119]) {
        return Some(Token::New);
    }
    if spells(bytes, start, n, &[110u8, 111, 116]) {
        return Some(Token::Not);
    }
    if spells(bytes, start, n, &[110u8, 111, 116, 104, 105, 110, 103]) {
        return Some(Token::Nothing);
    }
    if spells(bytes, start, n, &[111u8, 114]) {
        return Some(Token::Or);
    }
    if spells(bytes, start, n, &[112u8, 114, 105, 110, 116]) {
        return Some(Token::Print);
    }
    if spells(bytes, start, n, &[114u8, 101, 116, 117, 114, 110]) {
        return Some(Token::Return);
    }
    if spells(bytes, start, n, &[116u8, 104, 105, 115]) {
        return Some(Token::This);
    }
    if spells(bytes, start, n, &[116u8, 104, 114, 111, 119]) {
        return Some(Token::Throw);
    }
    if spells(bytes, start, n, &[116u8, 114, 117, 101]) {
        return Some(Token::True);
    }
    if spells(bytes, start, n, &[116u8, 114, 121]) {
        return Some(Token::Try);
    }
    if spells(bytes, start, n, &[119u8, 104, 105, 108, 101]) {
        return Some(Token::While);
    }
    None
}


/// Where the string literal whose opening quote precedes byte `q` ends.
fn string_literal_end(bytes: &[u8], q: usize) -> (r: Option<usize>)
    ensures
        r matches Some(e) ==> string_end(bytes@, q as int) == Some(e as int),
        r is None ==> string_end(bytes@, q as int) is None,
{
    let len = bytes.len();
    let mut k = q;
    loop
        invariant
            len == bytes@.len(),
            q <= k,
            string_end(bytes@, k as int) == string_end(bytes@, q as int),
        decreases len + 4 - k,
    {
        if k >= len {
            return None;
        }
        let c = bytes[k];
        let step: usize = if c == BACKSLASH {
            2
        } else if c == DOUBLE_QUOTE {
            return Some(k + 1);
        } else {
            utf8_width(c)
        };
        if len - k <= step {
            // Past the end: the literal is not terminated.
            assert(string_end(bytes@, k + step) is None);
            return None;
        }
        k += step;
    }
}

impl<'src> Lexer<'src> {
    /// The bytes of the source text.
    pub open spec fn text(&self) -> Seq<u8> {
        self.source.spec_bytes()
    }

    pub fn new(source: &'src str) -> (r: Lexer<'src>)
        ensures
            r.text() == source.spec_bytes(),
            r.offset == 0,
    {
        Lexer { source: source, offset: 0 }
    }

    /// Reads the next token, skipping spaces, tabs and comments, and moves
    /// `offset` past it. At the end of the source it gives `Eof`. An error
    /// token does not move `offset` past the erroneous text, except for a
    /// lone `!`.
    pub fn read(&mut self) -> (t: Token<&'src str>)
        ensures
            (t.model(), final(self).offset as int) == read_at(old(self).text(), old(self).offset as int),
            final(self).text() == old(self).text(),
    {
        let bytes = self.source.as_bytes();
        let len = bytes.len();
        let ghost b = bytes@;
        let ghost o0 = self.offset as int;
        loop
            invariant
                len == b.len(),
                b == bytes@,
                b == self.text(),
                self.text() == old(self).text(),
                o0 == old(self).offset,
                o0 <= self.offset,
                skip(b, self.offset as int) == skip(b, o0),
            decreases len - self.offset,
        {
            let o = self.offset;
            match self.peek_char(o) {
                None => {
                    return Token::Eof;
                },
                Some(c) => {
                    proof {
                        lemma_skip_step(b, o as int);
                    }
                    if c == SPACE || c == TAB {
                        self.offset = o + 1;
                    } else if c == SLASH && self.peek_char(o + 1) == Some(ASTERISK) {
                        self.offset = block_comment(bytes, o);
                    } else if c == SLASH && self.peek_char(o + 1) == Some(SLASH) {
                        self.offset = line_comment(bytes, o + 2);
                    } else {
                        let (token, length) = self.match_token();
                        self.offset = o + length;
                        return token;
                    }
                },
            }
        }
    }

    /// The byte at `offset`, if the source has one there.
    fn peek_char(&self, offset: usize) -> (r: Option<u8>)
        ensures
            r == (if offset < self.text().len() {
                Some(self.text()[offset as int])
            } else {
                None::<u8>
            }),
    {
        let bytes = self.source.as_bytes();
        if offset < bytes.len() {
            Some(bytes[offset])
        } else {
            None
        }
    }

    /// The part of the source from byte `start` up to byte `end`, where both
    /// the first byte and the byte before `end` are ASCII.
    fn slice(&self, start: usize, end: usize) -> (r: &'src str)
        requires
            start < end <= self.text().len(),
            self.text()[start as int] < 0x80,
            self.text()[end - 1] < 0x80,
        ensures
            r.spec_bytes() == self.text().subrange(start as int, end as int),
    {
        proof {
            lemma_str_valid_utf8(self.source);
            if end < self.text().len() {
                lemma_after_ascii(self.text(), end as int);
            }
        }
        substring(self.source, start, end)
    }

    /// The number literal at `offset`.
    fn match_number_literal(&self) -> (r: (Token<&'src str>, usize))
        requires
            self.offset < self.text().len(),
            is_digit(self.text()[self.offset as int]) || (self.text()[self.offset as int] == DASH
                && is_digit_at(self.text(), self.offset + 1)),
        ensures
            (r.0.model(), r.1 as int) == number_at(self.text(), self.offset as int),
            self.offset + r.1 <= self.text().len(),
    {
        let bytes = self.source.as_bytes();
        let ghost b = bytes@;
        let p = self.offset;
        let q = if bytes[p] == DASH {
            p + 1
        } else {
            p
        };
        if bytes[q] == DIGIT_0 && q + 1 < bytes.len() && digit(bytes[q + 1]) {
            return (Token::Error("Invalid number literal."), 0);
        }
        let i = digit_run_end(bytes, q + 1);
        proof {
            lemma_run_bounds(b, q + 1, digits());
            if i > q + 1 {
                assert(digits()(b[i - 1]));
            }
        }
        if i < bytes.len() && i + 1 < bytes.len() && bytes[i] == DOT && digit(bytes[i + 1]) {
            let e = digit_run_end(bytes, i + 2);
            proof {
                lemma_run_bounds(b, i + 2, digits());
                if e > i + 2 {
                    assert(digits()(b[e - 1]));
                }
            }
            (Token::Float(self.slice(p, e)), e - p)
        } else {
            (Token::Integer(self.slice(p, i)), i - p)
        }
    }

    /// The token at `offset`, with the number of bytes it takes.
    fn match_token(&self) -> (r: (Token<&'src str>, usize))
        requires
            self.offset < self.text().len(),
        ensures
            (r.0.model(), r.1 as int) == token_at(self.text(), self.offset as int),
            self.offset + r.1 <= self.text().len(),
    {
        let bytes = self.source.as_bytes();
        let ghost b = bytes@;
        let p = self.offset;
        let c = bytes[p];
        let next = self.peek_char(p + 1);
        if c == NEWLINE {
            (Token::Newline, 1)
        } else if c == LEFT_CURLY {
            (Token::LeftCurlyBracket, 1)
        } else if c == RIGHT_CURLY {
            (Token::RightCurlyBracket, 1)
        } else if c == LEFT_SQUARE {
            (Token::LeftSquareBracket, 1)
        } else if c == RIGHT_SQUARE {
            (Token::RightSquareBracket, 1)
        } else if c == LEFT_PAREN {
            (Token::LeftParenthesis, 1)
        } else if c == RIGHT_PAREN {
            (Token::RightParenthesis, 1)
        } else if c == DOT {
            (Token::Dot, 1)
        } else if c == COMMA {
            (Token::Comma, 1)
        } else if c == EQUALS {
            if next == Some(EQUALS) {
                (Token::EqualsEquals, 2)
            } else {
                (Token::Equals, 1)
            }
        } else if c == LEFT_ANGLE {
            if next == Some(EQUALS) {
                (Token::LeftAngleBracketEquals, 2)
            } else {
                (Token::LeftAngleBracket, 1)
            }
        } else if c == RIGHT_ANGLE {
            if next == Some(EQUALS) {
                (Token::RightAngleBracketEquals, 2)
            } else {
                (Token::RightAngleBracket, 1)
            }
        } else if c == BANG {
            if next == Some(EQUALS) {
                (Token::BangEquals, 2)
            } else {
                (Token::Error("Unexpected `!`."), 1)
            }
        } else if c == PLUS {
            if next == Some(EQUALS) {
                (Token::PlusEquals, 2)
            } else {
                (Token::Plus, 1)
            }
        } else if c == DASH {
            match next {
                Some(d) if digit(d) => self.match_number_literal(),
                Some(d) if d == EQUALS => (Token::DashEquals, 2),
                Some(d) if d == RIGHT_ANGLE => (Token::Arrow, 2),
                _ => (Token::Dash, 1),
            }
        } else if c == ASTERISK {
            if next == Some(EQUALS) {
                (Token::AsteriskEquals, 2)
            } else {
                (Token::Asterisk, 1)
            }
        } else if c == SLASH {
            if next == Some(EQUALS) {
                (Token::SlashEquals, 2)
            } else {
                (Token::Slash, 1)
            }
        } else if c == PERCENT {
            if next == Some(EQUALS) {
                (Token::PercentEquals, 2)
            } else {
                (Token::Percent, 1)
            }
        } else if c == VERTICAL_BAR {
            (Token::VerticalBar, 1)
        } else if name_start(c) {
            let end = name_run_end(bytes, p + 1);
            proof {
                lemma_run_bounds(b, p + 1, name_chars());
                if end > p + 1 {
                    assert(name_chars()(b[end - 1]));
                }
            }
            let length = end - p;
            match keyword_token(bytes, p, length) {
                Some(k) => (k, length),
                None => (Token::Identifier(self.slice(p, end)), length),
            }
        } else if c == DOLLAR {
            let end = name_run_end(bytes, p + 1);
            proof {
                lemma_run_bounds(b, p + 1, name_chars());
                if end > p + 1 {
                    assert(name_chars()(b[end - 1]));
                    assert(name_chars()(b[p + 1]));
                }
            }
            if end == p + 1 {
                (Token::Error("Unexpected `$`."), 0)
            } else {
                (Token::Variable(self.slice(p + 1, end)), end - p)
            }
        } else if c == DOUBLE_QUOTE {
            match string_literal_end(bytes, p + 1) {
                Some(e) => {
                    proof {
                        lemma_string_end(b, p + 1);
                    }
                    (Token::String(self.slice(p, e)), e - p)
                },
                None => (Token::Error("Unterminated string literal."), 0),
            }
        } else if digit(c) {
            self.match_number_literal()
        } else {
            (Token::Error("Unexpected character."), 0)
        }
    }
}


// LAWS ////////////////////////////////////////////////////////////////////////////////////////////

proof fn lemma_skip_bounds(b: Seq<u8>, i: int)
    requires
        0 <= i,
    ensures
        i <= skip(b, i),
        i <= b.len() ==> skip(b, i) <= b.len(),
        skip(b, i) < b.len() ==> skip_step(b, skip(b, i)) == skip(b, i),
    decreases b.len() - i,
{
    if 0 <= i < b.len() {
        lemma_skip_step(b, i);
        if i < skip_step(b, i) <= b.len() {
            lemma_skip_bounds(b, skip_step(b, i));
        }
    }
}

/// What `token_at` gives: a token that ends within the source, and takes at
/// least one byte unless it is an error.
proof fn lemma_token_at_bounds(b: Seq<u8>, p: int)
    requires
        0 <= p < b.len(),
    ensures
        0 <= token_at(b, p).1,
        p + token_at(b, p).1 <= b.len(),
        !(token_at(b, p).0 is Error) ==> 1 <= token_at(b, p).1,
{
    let c = b[p];
    if c == DASH || is_digit(c) {
        let q: int = if b[p] == DASH { p + 1 } else { p };
        if q < b.len() {
            lemma_run_bounds(b, q + 1, digits());
            let i: int = q + 1 + run(b, q + 1, digits()) as int;
            if i + 1 < b.len() {
                lemma_run_bounds(b, i + 2, digits());
            }
        }
    } else if is_name_start(c) || c == DOLLAR {
        lemma_run_bounds(b, p + 1, name_chars());
    } else if c == DOUBLE_QUOTE {
        lemma_string_end(b, p + 1);
    }
}

/// Reading never moves the offset backwards, and an offset within the source
/// stays within it.
pub proof fn lemma_read_moves_forward(b: Seq<u8>, o: int)
    requires
        0 <= o,
    ensures
        o <= read_at(b, o).1,
        o <= b.len() ==> read_at(b, o).1 <= b.len(),
{
    lemma_skip_bounds(b, o);
    let p: int = skip(b, o);
    if 0 <= p < b.len() {
        lemma_token_at_bounds(b, p);
    }
}

/// Every token but an error or the end of the source takes at least one byte,
/// so reading until the first error or `Eof` ends.
pub proof fn lemma_read_progresses(b: Seq<u8>, o: int)
    requires
        0 <= o,
        !(read_at(b, o).0 is Error),
        !(read_at(b, o).0 is Eof),
    ensures
        o < read_at(b, o).1,
{
    lemma_skip_bounds(b, o);
    lemma_token_at_bounds(b, skip(b, o));
}

/// Once reading gives `Eof`, reading again gives `Eof` at the same offset.
pub proof fn lemma_eof_is_final(b: Seq<u8>, o: int)
    requires
        0 <= o,
        read_at(b, o).0 is Eof,
    ensures
        read_at(b, read_at(b, o).1) == read_at(b, o),
{
    lemma_skip_bounds(b, o);
    let p: int = skip(b, o);
    if 0 <= p < b.len() {
        // A token that starts at `p` is never `Eof`.
        assert(!(token_at(b, p).0 is Eof));
    }
}

/// An identifier is the text of the source just before the new offset: a
/// name start byte followed by name bytes, and not a keyword.
pub proof fn lemma_identifier_text(b: Seq<u8>, o: int)
    requires
        0 <= o,
        read_at(b, o).0 is Identifier,
    ensures
        ({
            let w = read_at(b, o).0->Identifier_0;
            let e = read_at(b, o).1;
            &&& 1 <= w.len()
            &&& 0 <= e - w.len()
            &&& e <= b.len()
            &&& w == b.subrange(e - w.len(), e)
            &&& is_name_start(w[0])
            &&& forall|k: int| 1 <= k < w.len() ==> is_name_char(#[trigger] w[k])
            &&& keyword(w) is None
            &&& (e == b.len() || !is_name_char(b[e]))
        }),
{
    lemma_skip_bounds(b, o);
    let p: int = skip(b, o);
    lemma_token_at_bounds(b, p);
    lemma_run_bounds(b, p + 1, name_chars());
    let w = read_at(b, o).0->Identifier_0;
    assert forall|k: int| 1 <= k < w.len() implies is_name_char(#[trigger] w[k]) by {
        assert(name_chars()(b[p + k]));
    }
}

/// A variable token holds the name that follows a `$` in the source, just
/// before the new offset.
pub proof fn lemma_variable_text(b: Seq<u8>, o: int)
    requires
        0 <= o,
        read_at(b, o).0 is Variable,
    ensures
        ({
            let w = read_at(b, o).0->Variable_0;
            let e = read_at(b, o).1;
            &&& 1 <= w.len()
            &&& 1 <= e - w.len()
            &&& e <= b.len()
            &&& b[e - w.len() - 1] == DOLLAR
            &&& w == b.subrange(e - w.len(), e)
            &&& forall|k: int| 0 <= k < w.len() ==> is_name_char(#[trigger] w[k])
        }),
{
    lemma_skip_bounds(b, o);
    let p: int = skip(b, o);
    lemma_token_at_bounds(b, p);
    lemma_run_bounds(b, p + 1, name_chars());
    let w = read_at(b, o).0->Variable_0;
    assert forall|k: int| 0 <= k < w.len() implies is_name_char(#[trigger] w[k]) by {
        assert(name_chars()(b[p + 1 + k]));
    }
}


/// The bytes of a text written in ASCII.
pub open spec fn ascii(text: Seq<char>) -> Seq<u8> {
    text.map_values(|c: char| c as u8)
}

/// The keyword tokens.
pub open spec fn is_keyword_token(t: Token<&str>) -> bool {
    t is And || t is Catch || t is Class || t is Else || t is Extends || t is False || t is Finally || t is For || t is Function || t is If || t is Import || t is In || t is Is || t is Let || t is New || t is Not || t is Nothing || t is Or || t is Print || t is Return || t is This || t is Throw || t is True || t is Try || t is While
}

/// Every keyword is read back from its own spelling: the word that a keyword
/// token is written as is read as that token.
pub proof fn lemma_keywords_read_back(t: Token<&str>)
    requires
        is_keyword_token(t),
    ensures
        keyword(ascii(t.description())) == Some(t.model()),
{
    match t {
        Token::And => {
            reveal_strlit("and");
            let w = ascii("and"@);
            assert(w =~= seq![97u8, 110, 100]);
        },
        Token::Catch => {
            reveal_strlit("catch");
            let w = ascii("catch"@);
            assert(w =~= seq![99u8, 97, 116, 99, 104]);
        },
        Token::Class => {
            reveal_strlit("class");
            let w = ascii("class"@);
            assert(w =~= seq![99u8, 108, 97, 115, 115]);
            assert(w[1] != seq![99u8, 97, 116, 99, 104][1]);
        },
        Token::Else => {
            reveal_strlit("else");
            let w = ascii("else"@);
            assert(w =~= seq![101u8, 108, 115, 101]);
        },
        Token::Extends => {
            reveal_strlit("extends");
            let w = ascii("extends"@);
            assert(w =~= seq![101u8, 120, 116, 101, 110, 100, 115]);
        },
        Token::False => {
            reveal_strlit("false");
            let w = ascii("false"@);
            assert(w =~= seq![102u8, 97, 108, 115, 101]);
            assert(w[0] != seq![99u8, 97, 116, 99, 104][0]);
            assert(w[0] != seq![99u8, 108, 97, 115, 115][0]);
        },
        Token::Finally => {
            reveal_strlit("finally");
            let w = ascii("finally"@);
            assert(w =~= seq![102u8, 105, 110, 97, 108, 108, 121]);
            assert(w[0] != seq![101u8, 120, 116, 101, 110, 100, 115][0]);
        },
        Token::For => {
            reveal_strlit("for");
            let w = ascii("for"@);
            assert(w =~= seq![102u8, 111, 114]);
            assert(w[0] != seq![97u8, 110, 100][0]);
        },
        Token::Function => {
            reveal_strlit("function");
            let w = ascii("function"@);
            assert(w =~= seq![102u8, 117, 110, 99, 116, 105, 111, 110]);
        },
        Token::If => {
            reveal_strlit("if");
            let w = ascii("if"@);
            assert(w =~= seq![105u8, 102]);
        },
        Token::Import => {
            reveal_strlit("import");
            let w = ascii("import"@);
            assert(w =~= seq![105u8, 109, 112, 111, 114, 116]);
        },
        Token::In => {
            reveal_strlit("in");
            let w = ascii("in"@);
            assert(w =~= seq![105u8, 110]);
            assert(w[1] != seq![105u8, 102][1]);
        },
        Token::Is => {
            reveal_strlit("is");
            let w = ascii("is"@);
            assert(w =~= seq![105u8, 115]);
            assert(w[1] != seq![105u8, 102][1]);
            assert(w[1] != seq![105u8, 110][1]);
        },
        Token::Let => {
            reveal_strlit("let");
            let w = ascii("let"@);
            assert(w =~= seq![108u8, 101, 116]);
            assert(w[0] != seq![97u8, 110, 100][0]);
            assert(w[0] != seq![102u8, 111, 114][0]);
        },
        Token::New => {
            reveal_strlit("new");
            let w = ascii("new"@);
            assert(w =~= seq![110u8, 101, 119]);
            assert(w[0] != seq![97u8, 110, 100][0]);
            assert(w[0] != seq![102u8, 111, 114][0]);
            assert(w[0] != seq![108u8, 101, 116][0]);
        },
        Token::Not => {
            reveal_strlit("not");
            let w = ascii("not"@);
            assert(w =~= seq![110u8, 111, 116]);
            assert(w[0] != seq![97u8, 110, 100][0]);
            assert(w[0] != seq![102u8, 111, 114][0]);
            assert(w[0] != seq![108u8, 101, 116][0]);
            assert(w[1] != seq![110u8, 101, 119][1]);
        },
        Token::Nothing => {
            reveal_strlit("nothing");
            let w = ascii("nothing"@);
            assert(w =~= seq![110u8, 111, 116, 104, 105, 110, 103]);
            assert(w[0] != seq![101u8, 120, 116, 101, 110, 100, 115][0]);
            assert(w[0] != seq![102u8, 105, 110, 97, 108, 108, 121][0]);
        },
        Token::Or => {
            reveal_strlit("or");
            let w = ascii("or"@);
            assert(w =~= seq![111u8, 114]);
            assert(w[0] != seq![105u8, 102][0]);
            assert(w[0] != seq![105u8, 110][0]);
            assert(w[0] != seq![105u8, 115][0]);
        },
        Token::Print => {
            reveal_strlit("print");
            let w = ascii("print"@);
            assert(w =~= seq![112u8, 114, 105, 110, 116]);
            assert(w[0] != seq![99u8, 97, 116, 99, 104][0]);
            assert(w[0] != seq![99u8, 108, 97, 115, 115][0]);
            assert(w[0] != seq![102u8, 97, 108, 115, 101][0]);
        },
        Token::Return => {
            reveal_strlit("return");
            let w = ascii("return"@);
            assert(w =~= seq![114u8, 101, 116, 117, 114, 110]);
            assert(w[0] != seq![105u8, 109, 112, 111, 114, 116][0]);
        },
        Token::This => {
            reveal_strlit("this");
            let w = ascii("this"@);
            assert(w =~= seq![116u8, 104, 105, 115]);
            assert(w[0] != seq![101u8, 108, 115, 101][0]);
        },
        Token::Throw => {
            reveal_strlit("throw");
            let w = ascii("throw"@);
            assert(w =~= seq![116u8, 104, 114, 111, 119]);
            assert(w[0] != seq![99u8, 97, 116, 99, 104][0]);
            assert(w[0] != seq![99u8, 108, 97, 115, 115][0]);
            assert(w[0] != seq![102u8, 97, 108, 115, 101][0]);
            assert(w[0] != seq![112u8, 114, 105, 110, 116][0]);
        },
        Token::True => {
            reveal_strlit("true");
            let w = ascii("true"@);
            assert(w =~= seq![116u8, 114, 117, 101]);
            assert(w[0] != seq![101u8, 108, 115, 101][0]);
            assert(w[1] != seq![116u8, 104, 105, 115][1]);
        },
        Token::Try => {
            reveal_strlit("try");
            let w = ascii("try"@);
            assert(w =~= seq![116u8, 114, 121]);
            assert(w[0] != seq![97u8, 110, 100][0]);
            assert(w[0] != seq![102u8, 111, 114][0]);
            assert(w[0] != seq![108u8, 101, 116][0]);
            assert(w[0] != seq![110u8, 101, 119][0]);
            assert(w[0] != seq![110u8, 111, 116][0]);
        },
        Token::While => {
            reveal_strlit("while");
            let w = ascii("while"@);
            assert(w =~= seq![119u8, 104, 105, 108, 101]);
            assert(w[0] != seq![99u8, 97, 116, 99, 104][0]);
            assert(w[0] != seq![99u8, 108, 97, 115, 115][0]);
            assert(w[0] != seq![102u8, 97, 108, 115, 101][0]);
            assert(w[0] != seq![112u8, 114, 105, 110, 116][0]);
            assert(w[0] != seq![116u8, 104, 114, 111, 119][0]);
        },
        _ => {},
    }
}

} // verus!
