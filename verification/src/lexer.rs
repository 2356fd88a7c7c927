//! The tokenizer: a single pass over the bytes of the source text with one
//! byte of lookahead.

use crate::token::{Token, TokenView};
use vstd::prelude::*;
use vstd::string::*;
use vstd::utf8::*;

verus! {

// The ASCII codes that the tokenizer tells apart.
pub const LOWER_A: u8 = 97;

pub const LOWER_Z: u8 = 122;

pub const UPPER_A: u8 = 65;

pub const UPPER_Z: u8 = 90;

pub const UNDERSCORE: u8 = 95;

pub const DIGIT_ZERO: u8 = 48;

pub const DIGIT_NINE: u8 = 57;

pub const SPACE: u8 = 32;

pub const TAB: u8 = 9;

pub const LINE_FEED: u8 = 10;

pub const CARRIAGE_RETURN: u8 = 13;

pub const EQUALS: u8 = 61;

pub const PLUS: u8 = 43;

pub const MINUS: u8 = 45;

pub const BANG: u8 = 33;

pub const SLASH: u8 = 47;

pub const ASTERISK: u8 = 42;

pub const LESS: u8 = 60;

pub const GREATER: u8 = 62;

pub const SEMICOLON: u8 = 59;

pub const LEFT_PAREN: u8 = 40;

pub const RIGHT_PAREN: u8 = 41;

pub const COMMA: u8 = 44;

pub const LEFT_BRACE: u8 = 123;

pub const RIGHT_BRACE: u8 = 125;

/// ASCII letters and the underscore: the bytes that make up a word.
pub open spec fn is_letter(b: u8) -> bool {
    (LOWER_A <= b <= LOWER_Z) || (UPPER_A <= b <= UPPER_Z) || b == UNDERSCORE
}

/// ASCII decimal digits.
pub open spec fn is_digit(b: u8) -> bool {
    DIGIT_ZERO <= b <= DIGIT_NINE
}

/// Space, tab, line feed and carriage return.
pub open spec fn is_space(b: u8) -> bool {
    b == SPACE || b == TAB || b == LINE_FEED || b == CARRIAGE_RETURN
}

/// The bytes that begin an operator or delimiter.
pub open spec fn is_symbol(b: u8) -> bool {
    b == EQUALS || b == PLUS || b == MINUS || b == BANG || b == SLASH || b == ASTERISK || b == LESS || b
        == GREATER || b == SEMICOLON || b == LEFT_PAREN || b == RIGHT_PAREN || b == COMMA || b == LEFT_BRACE || b == RIGHT_BRACE
}

/// The byte at `at`, or the sentinel 0 past the end of the text.
pub open spec fn byte_at(bytes: Seq<u8>, at: int) -> u8 {
    if 0 <= at < bytes.len() {
        bytes[at]
    } else {
        0
    }
}

/// The first position at or after `from` that holds no whitespace.
pub open spec fn spaces_end(bytes: Seq<u8>, from: int) -> int
    decreases bytes.len() - from,
{
    if 0 <= from < bytes.len() && is_space(bytes[from]) {
        spaces_end(bytes, from + 1)
    } else {
        from
    }
}

/// The first position at or after `from` that holds no letter.
pub open spec fn letters_end(bytes: Seq<u8>, from: int) -> int
    decreases bytes.len() - from,
{
    if 0 <= from < bytes.len() && is_letter(bytes[from]) {
        letters_end(bytes, from + 1)
    } else {
        from
    }
}

/// The first position at or after `from` that holds no digit.
pub open spec fn digits_end(bytes: Seq<u8>, from: int) -> int
    decreases bytes.len() - from,
{
    if 0 <= from < bytes.len() && is_digit(bytes[from]) {
        digits_end(bytes, from + 1)
    } else {
        from
    }
}

/// The number that a run of decimal digits writes.
pub open spec fn digits_value(digits: Seq<u8>) -> nat
    decreases digits.len(),
{
    if digits.len() == 0 {
        0
    } else {
        (digits_value(digits.drop_last()) * 10 + (digits.last() - DIGIT_ZERO)) as nat
    }
}

/// The characters that a run of ASCII bytes encodes.
pub open spec fn ascii_text(bytes: Seq<u8>) -> Seq<char> {
    Seq::new(bytes.len(), |i: int| bytes[i] as char)
}

/// The token that a word stands for: its keyword, or else an identifier of
/// that spelling.
pub open spec fn word_token(word: Seq<char>) -> TokenView {
    if word == "let"@ {
        TokenView::Let
    } else if word == "fn"@ {
        TokenView::Function
    } else if word == "true"@ {
        TokenView::True
    } else if word == "false"@ {
        TokenView::False
    } else if word == "if"@ {
        TokenView::If
    } else if word == "else"@ {
        TokenView::Else
    } else if word == "return"@ {
        TokenView::Return
    } else {
        TokenView::Ident(word)
    }
}

/// A token together with the position of the first byte after it.
pub struct Lexeme {
    pub token: TokenView,
    pub end: int,
}

/// The position after the single byte at `at`; the end of the text is never
/// passed.
pub open spec fn step_over(bytes: Seq<u8>, at: int) -> int {
    if at < bytes.len() {
        at + 1
    } else {
        at
    }
}

/// The token that starts at the first non-blank position at or after `from`.
///
/// An operator or delimiter is a single byte, but for `==` and `!=`, which
/// take the `=` that follows. A letter starts a word, which extends over the
/// letters that follow it; a digit starts an integer literal, which extends
/// over the digits that follow it. The byte 0, which also stands for the end
/// of the text, is the end marker. Any other byte is an illegal token of its
/// own.
pub open spec fn lexeme_at(bytes: Seq<u8>, from: int) -> Lexeme {
    let at = spaces_end(bytes, from);
    let b = byte_at(bytes, at);
    let one = step_over(bytes, at);
    if b == EQUALS {
        if byte_at(bytes, at + 1) == EQUALS {
            Lexeme { token: TokenView::Eq, end: at + 2 }
        } else {
            Lexeme { token: TokenView::Assign, end: one }
        }
    } else if b == BANG {
        if byte_at(bytes, at + 1) == EQUALS {
            Lexeme { token: TokenView::Neq, end: at + 2 }
        } else {
            Lexeme { token: TokenView::Bang, end: one }
        }
    } else if b == PLUS {
        Lexeme { token: TokenView::Plus, end: one }
    } else if b == MINUS {
        Lexeme { token: TokenView::Minus, end: one }
    } else if b == SLASH {
        Lexeme { token: TokenView::Slash, end: one }
    } else if b == ASTERISK {
        Lexeme { token: TokenView::Asterisk, end: one }
    } else if b == LESS {
        Lexeme { token: TokenView::Lt, end: one }
    } else if b == GREATER {
        Lexeme { token: TokenView::Gt, end: one }
    } else if b == SEMICOLON {
        Lexeme { token: TokenView::Semicolon, end: one }
    } else if b == LEFT_PAREN {
        Lexeme { token: TokenView::Lparen, end: one }
    } else if b == RIGHT_PAREN {
        Lexeme { token: TokenView::Rparen, end: one }
    } else if b == COMMA {
        Lexeme { token: TokenView::Comma, end: one }
    } else if b == LEFT_BRACE {
        Lexeme { token: TokenView::Lbrace, end: one }
    } else if b == RIGHT_BRACE {
        Lexeme { token: TokenView::Rbrace, end: one }
    } else if b == 0 {
        Lexeme { token: TokenView::EOF, end: one }
    } else if is_letter(b) {
        let end = letters_end(bytes, at);
        Lexeme { token: word_token(ascii_text(bytes.subrange(at, end))), end }
    } else if is_digit(b) {
        let end = digits_end(bytes, at);
        Lexeme { token: TokenView::Int(digits_value(bytes.subrange(at, end)) as i32), end }
    } else {
        Lexeme { token: TokenView::Illegal, end: one }
    }
}

/// Whether the token that starts at or after `from` can be represented: an
/// integer literal must not exceed the largest 32-bit signed value.
pub open spec fn literal_fits(bytes: Seq<u8>, from: int) -> bool {
    let at = spaces_end(bytes, from);
    is_digit(byte_at(bytes, at)) ==> digits_value(bytes.subrange(at, digits_end(bytes, at)))
        <= i32::MAX
}

/// The tokens of the text from position `from` on, up to the one that
/// reaches the end of the text. Every later token is the end marker.
pub open spec fn tokens_from(bytes: Seq<u8>, from: int) -> Seq<TokenView>
    decreases bytes.len() - from,
{
    if 0 <= from < bytes.len() {
        proof {
            lemma_lexeme_advances(bytes, from);
        }
        let lexeme = lexeme_at(bytes, from);
        seq![lexeme.token] + tokens_from(bytes, lexeme.end)
    } else {
        Seq::empty()
    }
}

/// Whether every token from position `from` on can be represented.
pub open spec fn literals_fit(bytes: Seq<u8>, from: int) -> bool
    decreases bytes.len() - from,
{
    if 0 <= from < bytes.len() {
        proof {
            lemma_lexeme_advances(bytes, from);
        }
        literal_fits(bytes, from) && literals_fit(bytes, lexeme_at(bytes, from).end)
    } else {
        true
    }
}

/// The tokens of the text from position `from` on as far as they can be
/// represented: all of them where every literal fits, and else those before
/// the first integer literal that exceeds the largest 32-bit signed value,
/// with one end marker in its place.
pub open spec fn readable_tokens(bytes: Seq<u8>, from: int) -> Seq<TokenView>
    decreases bytes.len() - from,
{
    if 0 <= from < bytes.len() {
        if literal_fits(bytes, from) {
            proof {
                lemma_lexeme_advances(bytes, from);
            }
            let lexeme = lexeme_at(bytes, from);
            seq![lexeme.token] + readable_tokens(bytes, lexeme.end)
        } else {
            seq![TokenView::EOF]
        }
    } else {
        Seq::empty()
    }
}

/// Where every literal fits, the tokens that can be represented are all the
/// tokens.
pub proof fn lemma_readable_tokens_of_fitting_text(bytes: Seq<u8>, from: int)
    requires
        literals_fit(bytes, from),
    ensures
        readable_tokens(bytes, from) == tokens_from(bytes, from),
    decreases bytes.len() - from,
{
    if 0 <= from < bytes.len() {
        lemma_lexeme_advances(bytes, from);
        lemma_readable_tokens_of_fitting_text(bytes, lexeme_at(bytes, from).end);
    }
}

/// A run of blanks ends inside the text, at a byte that is no blank.
pub proof fn lemma_spaces_end(bytes: Seq<u8>, from: int)
    requires
        0 <= from <= bytes.len(),
    ensures
        from <= spaces_end(bytes, from) <= bytes.len(),
        !is_space(byte_at(bytes, spaces_end(bytes, from))),
        forall|k: int| from <= k < spaces_end(bytes, from) ==> is_space(#[trigger] bytes[k]),
    decreases bytes.len() - from,
{
    if from < bytes.len() && is_space(bytes[from]) {
        lemma_spaces_end(bytes, from + 1);
    }
}

/// A run of letters ends inside the text, at a byte that is no letter.
pub proof fn lemma_letters_end(bytes: Seq<u8>, from: int)
    requires
        0 <= from <= bytes.len(),
    ensures
        from <= letters_end(bytes, from) <= bytes.len(),
        !is_letter(byte_at(bytes, letters_end(bytes, from))),
        forall|k: int| from <= k < letters_end(bytes, from) ==> is_letter(#[trigger] bytes[k]),
        is_letter(byte_at(bytes, from)) ==> from < letters_end(bytes, from),
    decreases bytes.len() - from,
{
    if from < bytes.len() && is_letter(bytes[from]) {
        lemma_letters_end(bytes, from + 1);
    }
}

/// A run of digits ends inside the text, at a byte that is no digit.
pub proof fn lemma_digits_end(bytes: Seq<u8>, from: int)
    requires
        0 <= from <= bytes.len(),
    ensures
        from <= digits_end(bytes, from) <= bytes.len(),
        !is_digit(byte_at(bytes, digits_end(bytes, from))),
        forall|k: int| from <= k < digits_end(bytes, from) ==> is_digit(#[trigger] bytes[k]),
        is_digit(byte_at(bytes, from)) ==> from < digits_end(bytes, from),
    decreases bytes.len() - from,
{
    if from < bytes.len() && is_digit(bytes[from]) {
        lemma_digits_end(bytes, from + 1);
    }
}

/// Inside the text every token takes at least one byte and ends within the
/// text.
pub proof fn lemma_lexeme_advances(bytes: Seq<u8>, from: int)
    requires
        0 <= from < bytes.len(),
    ensures
        from < lexeme_at(bytes, from).end <= bytes.len(),
{
    lemma_spaces_end(bytes, from);
    let at = spaces_end(bytes, from);
    lemma_letters_end(bytes, at);
    lemma_digits_end(bytes, at);
}

/// At or past the end of the text the token is the end marker and the
/// position stays.
pub proof fn lemma_lexeme_at_end(bytes: Seq<u8>, from: int)
    requires
        from >= bytes.len(),
    ensures
        lexeme_at(bytes, from) == (Lexeme { token: TokenView::EOF, end: from }),
{
}

/// Whether a byte begins a token of its own or separates tokens.
pub open spec fn is_recognized(b: u8) -> bool {
    is_symbol(b) || is_letter(b) || is_digit(b) || is_space(b)
}

/// Every byte but 0 that is no symbol, letter, digit or blank yields the
/// illegal token, which takes that one byte. (The byte 0 yields the end
/// marker.)
pub proof fn lemma_unrecognized_byte_is_illegal(bytes: Seq<u8>, at: int)
    requires
        0 <= at < bytes.len(),
        !is_recognized(bytes[at]),
        bytes[at] != 0,
    ensures
        lexeme_at(bytes, at) == (Lexeme { token: TokenView::Illegal, end: at + 1 }),
{
}


/// The value of a prefix of a run of digits never exceeds the value of the
/// whole run.
proof fn lemma_digits_prefix(digits: Seq<u8>, k: int)
    requires
        0 <= k <= digits.len(),
        forall|i: int| 0 <= i < digits.len() ==> is_digit(#[trigger] digits[i]),
    ensures
        digits_value(digits.subrange(0, k)) <= digits_value(digits),
    decreases digits.len() - k,
{
    if k == digits.len() {
        assert(digits.subrange(0, k) =~= digits);
    } else {
        lemma_digits_prefix(digits, k + 1);
        let longer = digits.subrange(0, k + 1);
        assert(longer.drop_last() =~= digits.subrange(0, k));
    }
}

/// In well-formed UTF-8 a character begins right after every ASCII byte.
proof fn lemma_boundary_after_ascii(bytes: Seq<u8>, at: int)
    requires
        valid_utf8(bytes),
        0 <= at < bytes.len(),
        bytes[at] < 128,
    ensures
        is_char_boundary(bytes, at + 1),
{
    is_char_boundary_iff_not_is_continuation_byte(bytes, at);
    if at + 1 == bytes.len() {
        is_char_boundary_start_end_of_seq(bytes);
    } else {
        valid_utf8_split(bytes, at);
        let tail = bytes.subrange(at, bytes.len() as int);
        assert(tail[0] == bytes[at]);
        assert(valid_utf8(tail));
        let rest = pop_first_scalar(tail);
        assert(rest =~= bytes.subrange(at + 1, bytes.len() as int));
        assert(valid_utf8(rest));
        assert(rest.len() > 0);
        assert(valid_first_scalar(rest));
        assert(rest[0] == bytes[at + 1]);
        assert(!is_continuation_byte(rest[0]));
        is_char_boundary_iff_not_is_continuation_byte(bytes, at + 1);
    }
}

/// A string whose encoding holds ASCII bytes only has those bytes for its
/// characters.
pub proof fn lemma_ascii_decode(text: Seq<char>, bytes: Seq<u8>)
    requires
        encode_utf8(text) == bytes,
        forall|i: int| 0 <= i < bytes.len() ==> #[trigger] bytes[i] < 128,
    ensures
        text == ascii_text(bytes),
{
    let plain = ascii_text(bytes);
    assert(is_ascii_chars(plain));
    is_ascii_chars_encode_utf8(plain);
    assert(encode_utf8(plain) =~= bytes);
    encode_utf8_decode_utf8(plain);
    encode_utf8_decode_utf8(text);
}

/// Whether `b` is an ASCII letter or the underscore.
fn byte_is_letter(b: u8) -> (yes: bool)
    ensures
        yes == is_letter(b),
{
    (LOWER_A <= b && b <= LOWER_Z) || (UPPER_A <= b && b <= UPPER_Z) || b == UNDERSCORE
}

/// Whether `b` is an ASCII decimal digit.
fn byte_is_digit(b: u8) -> (yes: bool)
    ensures
        yes == is_digit(b),
{
    DIGIT_ZERO <= b && b <= DIGIT_NINE
}

/// Whether `b` is a space, tab, line feed or carriage return.
fn byte_is_space(b: u8) -> (yes: bool)
    ensures
        yes == is_space(b),
{
    b == SPACE || b == TAB || b == LINE_FEED || b == CARRIAGE_RETURN
}

/// Whether two strings hold the same characters.
fn same_text(a: &str, b: &str) -> (same: bool)
    ensures
        same == (a@ == b@),
{
    let left = a.as_bytes();
    let right = b.as_bytes();
    proof {
        encode_utf8_decode_utf8(a@);
        encode_utf8_decode_utf8(b@);
    }
    if left.len() != right.len() {
        return false;
    }
    let mut i: usize = 0;
    while i < left.len()
        invariant
            i <= left.len(),
            left.len() == right.len(),
            left@ == encode_utf8(a@),
            right@ == encode_utf8(b@),
            decode_utf8(encode_utf8(a@)) == a@,
            decode_utf8(encode_utf8(b@)) == b@,
            forall|k: int| 0 <= k < i ==> left@[k] == right@[k],
        decreases left.len() - i,
    {
        if left[i] != right[i] {
            return false;
        }
        i += 1;
    }
    assert(left@ =~= right@);
    true
}

/// The part of `text` between two byte positions, for a non-empty run of
/// ASCII bytes.
fn ascii_slice<'b>(text: &'b str, from: usize, to: usize) -> (part: &'b str)
    requires
        from < to <= text.spec_bytes().len(),
        forall|k: int| from <= k < to ==> #[trigger] text.spec_bytes()[k] < 128,
    ensures
        part@ == ascii_text(text.spec_bytes().subrange(from as int, to as int)),
{
    let ghost bytes = text.spec_bytes();
    proof {
        encode_utf8_valid_utf8(text@);
        lemma_boundary_after_ascii(bytes, to - 1);
    }
    let (head, _) = text.split_at(to);
    proof {
        encode_utf8_valid_utf8(head@);
        assert(head.spec_bytes()[from as int] == bytes[from as int]);
        is_char_boundary_iff_not_is_continuation_byte(head.spec_bytes(), from as int);
    }
    let (_, part) = head.split_at(from);
    proof {
        assert(part.spec_bytes() =~= bytes.subrange(from as int, to as int));
        lemma_ascii_decode(part@, part.spec_bytes());
    }
    part
}

/// The number written by the digits between two positions of `bytes`.
fn digits_to_i32(bytes: &[u8], from: usize, to: usize) -> (value: i32)
    requires
        from <= to <= bytes@.len(),
        forall|k: int| from <= k < to ==> is_digit(#[trigger] bytes@[k]),
        digits_value(bytes@.subrange(from as int, to as int)) <= i32::MAX,
    ensures
        value == digits_value(bytes@.subrange(from as int, to as int)),
{
    let ghost run = bytes@.subrange(from as int, to as int);
    let mut value: i32 = 0;
    let mut i: usize = from;
    while i < to
        invariant
            from <= i <= to <= bytes@.len(),
            run == bytes@.subrange(from as int, to as int),
            forall|k: int| 0 <= k < run.len() ==> is_digit(#[trigger] run[k]),
            digits_value(run) <= i32::MAX,
            value == digits_value(run.subrange(0, i - from)),
        decreases to - i,
    {
        proof {
            lemma_digits_prefix(run, i - from + 1);
            let longer = run.subrange(0, i - from + 1);
            assert(longer.drop_last() =~= run.subrange(0, i - from));
            assert(longer.last() == bytes@[i as int]);
        }
        let digit: i32 = (bytes[i] - DIGIT_ZERO) as i32;
        value = value * 10 + digit;
        i += 1;
    }
    assert(run.subrange(0, to - from) =~= run);
    value
}


/// A tokenizer over a borrowed source text. It holds the position of the
/// byte under the cursor, the position to read next, which is the one after
/// it, and the byte under the cursor (0 once the cursor has reached the end
/// of the text).
pub struct Lexer<'a> {
    input: &'a str,
    position: usize,
    read_position: usize,
    ch: u8,
}

impl<'a> Lexer<'a> {
    /// The bytes of the source text.
    pub closed spec fn bytes(&self) -> Seq<u8> {
        self.input.spec_bytes()
    }

    /// The position of the cursor: where the next token is looked for.
    pub closed spec fn cursor(&self) -> int {
        self.position as int
    }

    /// The position to read next.
    pub closed spec fn read_cursor(&self) -> int {
        self.read_position as int
    }

    /// The byte that the tokenizer holds.
    pub closed spec fn byte(&self) -> u8 {
        self.ch
    }

    /// The cursor lies within the text or at its end, the position to read
    /// next is the one after it, and the byte held is the byte under the
    /// cursor, 0 at the end of the text. The text is short enough for the
    /// position after its end to be counted.
    pub open spec fn wf(&self) -> bool {
        &&& self.bytes().len() < usize::MAX
        &&& 0 <= self.cursor() <= self.bytes().len()
        &&& self.read_cursor() == self.cursor() + 1
        &&& self.byte() == byte_at(self.bytes(), self.cursor())
    }

    /// A tokenizer at the start of `input`: the cursor at position 0, the
    /// position to read next 1, the byte held the first of the text, or 0
    /// where the text is empty. The text must be shorter than the largest
    /// `usize`, so that the position after its end can be counted.
    pub fn new(input: &'a str) -> (lexer: Self)
        requires
            input.spec_bytes().len() < usize::MAX,
        ensures
            lexer.wf(),
            lexer.bytes() == input.spec_bytes(),
            lexer.cursor() == 0,
            lexer.read_cursor() == 1,
            lexer.byte() == byte_at(input.spec_bytes(), 0),
    {
        let mut lexer = Lexer { input, position: 0, read_position: 0, ch: 0 };
        lexer.read_char();
        lexer
    }

    /// The position of the byte under the cursor.
    pub fn position(&self) -> (at: usize)
        ensures
            at == self.cursor(),
    {
        self.position
    }

    /// The position to read next.
    pub fn read_position(&self) -> (at: usize)
        ensures
            at == self.read_cursor(),
    {
        self.read_position
    }

    /// The byte under the cursor, 0 at the end of the text.
    pub fn ch(&self) -> (b: u8)
        ensures
            b == self.byte(),
    {
        self.ch
    }

    /// Moves the cursor to the position to read next, and that position one
    /// on. At the end of the text nothing moves.
    fn read_char(&mut self)
        requires
            old(self).bytes().len() < usize::MAX,
            old(self).read_position <= old(self).bytes().len() + 1,
            old(self).read_position > old(self).bytes().len() ==> old(self).wf(),
        ensures
            final(self).wf(),
            final(self).input == old(self).input,
            final(self).position == if old(self).read_position <= old(self).bytes().len() {
                old(self).read_position
            } else {
                old(self).position
            },
            old(self).wf() ==> final(self).cursor() == step_over(
                old(self).bytes(),
                old(self).cursor(),
            ),
    {
        let bytes = self.input.as_bytes();
        if self.read_position >= bytes.len() {
            self.ch = 0;
        } else {
            self.ch = bytes[self.read_position];
        }
        if self.read_position <= bytes.len() {
            self.position = self.read_position;
            self.read_position += 1;
        }
    }

    /// The byte after the one under the cursor, or 0 at the end of the text.
    fn peek_char(&self) -> (b: u8)
        requires
            self.wf(),
        ensures
            b == byte_at(self.bytes(), self.cursor() + 1),
    {
        let bytes = self.input.as_bytes();
        if self.read_position >= bytes.len() {
            0
        } else {
            bytes[self.read_position]
        }
    }

    /// Moves the cursor past a run of blanks.
    fn skip_whitespace(&mut self)
        requires
            old(self).wf(),
        ensures
            final(self).wf(),
            final(self).input == old(self).input,
            final(self).cursor() == spaces_end(old(self).bytes(), old(self).cursor()),
    {
        while byte_is_space(self.ch)
            invariant
                self.wf(),
                self.input == old(self).input,
                spaces_end(self.bytes(), self.cursor()) == spaces_end(
                    old(self).bytes(),
                    old(self).cursor(),
                ),
            decreases self.bytes().len() - self.position,
        {
            self.read_char();
        }
    }

    /// Reads the word under the cursor and classifies it.
    fn read_identifier(&mut self) -> (token: Token)
        requires
            old(self).wf(),
            is_letter(byte_at(old(self).bytes(), old(self).cursor())),
        ensures
            final(self).wf(),
            final(self).input == old(self).input,
            final(self).cursor() == letters_end(old(self).bytes(), old(self).cursor()),
            token@ == word_token(
                ascii_text(old(self).bytes().subrange(old(self).cursor(), final(self).cursor())),
            ),
    {
        let from = self.position;
        while byte_is_letter(self.ch)
            invariant
                self.wf(),
                self.input == old(self).input,
                from <= self.position,
                from == old(self).position,
                letters_end(self.bytes(), self.cursor()) == letters_end(
                    self.bytes(),
                    from as int,
                ),
                forall|k: int| from <= k < self.position ==> is_letter(#[trigger] self.bytes()[k]),
            decreases self.bytes().len() - self.position,
        {
            self.read_char();
        }
        self.lookup_ident(ascii_slice(self.input, from, self.position))
    }

    /// Reads the integer literal under the cursor.
    fn read_number(&mut self) -> (token: Token)
        requires
            old(self).wf(),
            is_digit(byte_at(old(self).bytes(), old(self).cursor())),
            digits_value(
                old(self).bytes().subrange(
                    old(self).cursor(),
                    digits_end(old(self).bytes(), old(self).cursor()),
                ),
            ) <= i32::MAX,
        ensures
            final(self).wf(),
            final(self).input == old(self).input,
            final(self).cursor() == digits_end(old(self).bytes(), old(self).cursor()),
            token@ == TokenView::Int(
                digits_value(
                    old(self).bytes().subrange(old(self).cursor(), final(self).cursor()),
                ) as i32,
            ),
    {
        let from = self.position;
        while byte_is_digit(self.ch)
            invariant
                self.wf(),
                self.input == old(self).input,
                from <= self.position,
                from == old(self).position,
                digits_end(self.bytes(), self.cursor()) == digits_end(self.bytes(), from as int),
                forall|k: int| from <= k < self.position ==> is_digit(#[trigger] self.bytes()[k]),
            decreases self.bytes().len() - self.position,
        {
            self.read_char();
        }
        let parsed = digits_to_i32(self.input.as_bytes(), from, self.position);
        Token::Int(parsed)
    }

    /// The keyword that `ident` spells, or else an identifier of that name.
    fn lookup_ident(&self, ident: &str) -> (token: Token)
        ensures
            token@ == word_token(ident@),
    {
        if same_text(ident, "let") {
            Token::Let
        } else if same_text(ident, "fn") {
            Token::Function
        } else if same_text(ident, "true") {
            Token::True
        } else if same_text(ident, "false") {
            Token::False
        } else if same_text(ident, "if") {
            Token::If
        } else if same_text(ident, "else") {
            Token::Else
        } else if same_text(ident, "return") {
            Token::Return
        } else {
            Token::Ident(ident.to_owned())
        }
    }

    /// Whether the cursor has reached the end of the text, so that every
    /// further token is the end marker.
    pub fn at_end(&self) -> (yes: bool)
        requires
            self.wf(),
        ensures
            yes == (self.cursor() >= self.bytes().len()),
    {
        self.position >= self.input.as_bytes().len()
    }

    /// Whether the next token can be represented, which `next_token` asks
    /// for: false exactly where an integer literal that exceeds the largest
    /// 32-bit signed value comes next.
    pub fn next_literal_fits(&self) -> (ok: bool)
        requires
            self.wf(),
        ensures
            ok == literal_fits(self.bytes(), self.cursor()),
    {
        let bytes = self.input.as_bytes();
        let mut at: usize = self.position;
        while at < bytes.len() && byte_is_space(bytes[at])
            invariant
                self.position <= at <= bytes@.len(),
                bytes@ == self.bytes(),
                spaces_end(bytes@, at as int) == spaces_end(bytes@, self.position as int),
            decreases bytes@.len() - at,
        {
            at += 1;
        }
        if at >= bytes.len() || !byte_is_digit(bytes[at]) {
            return true;
        }
        let mut value: i64 = 0;
        let mut i: usize = at;
        while i < bytes.len() && byte_is_digit(bytes[i])
            invariant
                at <= i <= bytes@.len(),
                bytes@ == self.bytes(),
                at == spaces_end(bytes@, self.position as int),
                is_digit(byte_at(bytes@, at as int)),
                digits_end(bytes@, i as int) == digits_end(bytes@, at as int),
                forall|k: int| at <= k < i ==> is_digit(#[trigger] bytes@[k]),
                value == digits_value(bytes@.subrange(at as int, i as int)),
                value <= i32::MAX,
            decreases bytes@.len() - i,
        {
            proof {
                let longer = bytes@.subrange(at as int, i + 1);
                assert(longer.drop_last() =~= bytes@.subrange(at as int, i as int));
                assert(longer.last() == bytes@[i as int]);
            }
            let digit: i64 = (bytes[i] - DIGIT_ZERO) as i64;
            value = value * 10 + digit;
            if value > 2147483647 {
                proof {
                    lemma_digits_end(bytes@, i + 1);
                    lemma_digits_end(bytes@, at as int);
                    let end = digits_end(bytes@, at as int);
                    let run = bytes@.subrange(at as int, end);
                    lemma_digits_prefix(run, i + 1 - at);
                    assert(run.subrange(0, i + 1 - at) =~= bytes@.subrange(at as int, i + 1));
                }
                return false;
            }
            i += 1;
        }
        true
    }

    /// Whether every token from the cursor on can be represented.
    pub fn all_literals_fit(&self) -> (ok: bool)
        requires
            self.wf(),
        ensures
            ok == literals_fit(self.bytes(), self.cursor()),
    {
        let mut probe = Lexer {
            input: self.input,
            position: self.position,
            read_position: self.read_position,
            ch: self.ch,
        };
        while !probe.at_end()
            invariant
                probe.wf(),
                probe.bytes() == self.bytes(),
                literals_fit(self.bytes(), probe.cursor()) == literals_fit(
                    self.bytes(),
                    self.cursor(),
                ),
            decreases self.bytes().len() - probe.cursor(),
        {
            proof {
                lemma_lexeme_advances(probe.bytes(), probe.cursor());
            }
            if !probe.next_literal_fits() {
                return false;
            }
            let _ = probe.next_token();
        }
        true
    }

    /// Skips blanks and returns the token under the cursor, leaving the cursor
    /// on the first byte after it. At the end of the text, and on a byte 0,
    /// the token is the end marker; a byte that begins no token yields the
    /// illegal token.
    pub fn next_token(&mut self) -> (token: Token)
        requires
            old(self).wf(),
            literal_fits(old(self).bytes(), old(self).cursor()),
        ensures
            final(self).wf(),
            final(self).bytes() == old(self).bytes(),
            token@ == lexeme_at(old(self).bytes(), old(self).cursor()).token,
            final(self).cursor() == lexeme_at(old(self).bytes(), old(self).cursor()).end,
            old(self).cursor() <= final(self).cursor(),
    {
        proof {
            lemma_spaces_end(self.bytes(), self.cursor());
            lemma_letters_end(self.bytes(), spaces_end(self.bytes(), self.cursor()));
            lemma_digits_end(self.bytes(), spaces_end(self.bytes(), self.cursor()));
        }
        self.skip_whitespace();
        let tok = if self.ch == EQUALS {
            if self.peek_char() == EQUALS {
                self.read_char();
                Token::Eq
            } else {
                Token::Assign
            }
        } else if self.ch == PLUS {
            Token::Plus
        } else if self.ch == MINUS {
            Token::Minus
        } else if self.ch == BANG {
            if self.peek_char() == EQUALS {
                self.read_char();
                Token::Neq
            } else {
                Token::Bang
            }
        } else if self.ch == SLASH {
            Token::Slash
        } else if self.ch == ASTERISK {
            Token::Asterisk
        } else if self.ch == LESS {
            Token::Lt
        } else if self.ch == GREATER {
            Token::Gt
        } else if self.ch == SEMICOLON {
            Token::Semicolon
        } else if self.ch == LEFT_PAREN {
            Token::Lparen
        } else if self.ch == RIGHT_PAREN {
            Token::Rparen
        } else if self.ch == COMMA {
            Token::Comma
        } else if self.ch == LEFT_BRACE {
            Token::Lbrace
        } else if self.ch == RIGHT_BRACE {
            Token::Rbrace
        } else if self.ch == 0 {
            Token::EOF
        } else if byte_is_letter(self.ch) {
            return self.read_identifier();
        } else if byte_is_digit(self.ch) {
            return self.read_number();
        } else {
            Token::Illegal
        };
        self.read_char();
        tok
    }
}

} // verus!
